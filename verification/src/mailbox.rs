//! Mailbox-based hardware-configuration protocol: building property-channel
//! messages and walking the tags of a response.
//!
//! A message is a sequence of 32-bit words: a total byte length, a request
//! code, then tag records, then a zero end tag.  Each tag record is the tag
//! value, the byte length of its value buffer, a request/response code, and
//! the value buffer itself.  Sending the message is a hardware register
//! exchange and lives with the machine-facing code; everything about the
//! words themselves is decided here.

use vstd::prelude::*;

use core::marker::PhantomData;

verus! {

/// The request code written into fresh messages and tag records.
pub const REQUEST_CODE: u32 = 0;

/// The code the firmware writes over the request code when it responds.
pub const RESPONSE_CODE: u32 = 0x8000_0000;

/// The tag value that ends a message.
pub const END_TAG: u32 = 0;

/// A family of mailbox tags: each tag has a 32-bit value, and a value maps
/// back to the tag it names, if any.
pub trait MailboxTagType: Sized {
    /// The 32-bit value of this tag.
    spec fn value_spec(&self) -> u32;

    /// The tag a 32-bit value names.
    spec fn from_value_spec(value: u32) -> Option<Self>;

    fn get_value(&self) -> (r: u32)
        ensures
            r == self.value_spec(),
    ;

    fn from_value(value: u32) -> (r: Option<Self>)
        ensures
            r == Self::from_value_spec(value),
    ;
}

/// A property-channel message under construction.  `end` is the index of
/// the current end tag; the words after it up to the fixed capacity are
/// spare room.
pub struct MailboxMessageBuffer<T: MailboxTagType> {
    data: Vec<u32>,
    end: usize,
    _t: PhantomData<T>,
}

impl<T: MailboxTagType> MailboxMessageBuffer<T> {
    /// The message words.
    pub closed spec fn view_data(self) -> Seq<u32> {
        self.data@
    }

    /// Index of the current end tag.
    pub closed spec fn end_index(self) -> int {
        self.end as int
    }

    /// Capacity of the buffer in 32-bit words.
    pub closed spec fn capacity(self) -> int {
        self.data@.len() as int
    }

    /// The end tag sits inside the buffer, after the two header words, and
    /// the capacity is small enough for all byte counts to fit in 32 bits.
    pub closed spec fn wf(self) -> bool {
        &&& 2 <= self.end as int
        &&& (self.end as int) < self.data@.len()
        &&& self.data@.len() <= 0x100_0000
    }

    /// A fresh message of the given capacity: its byte length, the request
    /// code and the end tag, with room for nothing else yet.
    pub fn new(capacity: usize) -> (r: Self)
        requires
            3 <= capacity <= 0x100_0000,
        ensures
            r.wf(),
            r.capacity() == capacity,
            r.end_index() == 2,
            r.view_data()[0] == 12,
            r.view_data()[1] == REQUEST_CODE,
            r.view_data()[2] == END_TAG,
    {
        let mut data: Vec<u32> = Vec::new();
        let mut k: usize = 0;
        while k < capacity
            invariant
                data@.len() == k,
                k <= capacity,
            decreases capacity - k,
        {
            data.push(0);
            k += 1;
        }
        data[0] = 12;
        data[1] = REQUEST_CODE;
        data[2] = END_TAG;
        MailboxMessageBuffer { data, end: 2, _t: PhantomData }
    }

    /// One message word.
    pub fn word(&self, index: usize) -> (r: u32)
        requires
            index < self.view_data().len(),
        ensures
            r == self.view_data()[index as int],
    {
        self.data[index]
    }

    /// Index of the current end tag.
    pub fn end(&self) -> (r: usize)
        ensures
            r == self.end_index(),
    {
        self.end
    }

    /// Append one tag record.  If the record and a fresh end tag do not
    /// both fit, nothing changes and the number of words still free is
    /// returned.
    pub fn try_add_tag(&mut self, tag: T, buffer: &Vec<u32>) -> (r: Result<(), usize>)
        requires
            old(self).wf(),
            buffer@.len() <= 0x100_0000,
        ensures
            final(self).wf(),
            final(self).capacity() == old(self).capacity(),
            old(self).end_index() + 3 + buffer@.len() >= old(self).capacity() ==> r == Err::<
                (),
                usize,
            >((old(self).capacity() - old(self).end_index()) as usize) && final(self).view_data()
                == old(self).view_data() && final(self).end_index() == old(self).end_index(),
            old(self).end_index() + 3 + buffer@.len() < old(self).capacity() ==> {
                let start = old(self).end_index();
                let new_end = start + 3 + buffer@.len();
                &&& r == Ok::<(), usize>(())
                &&& final(self).end_index() == new_end
                &&& final(self).view_data()[0] == 4 * (new_end + 1)
                &&& final(self).view_data()[start] == tag.value_spec()
                &&& final(self).view_data()[start + 1] == 4 * buffer@.len()
                &&& final(self).view_data()[start + 2] == REQUEST_CODE
                &&& (forall|k: int|
                    0 <= k < buffer@.len() ==> final(self).view_data()[start + 3 + k]
                        == buffer@[k])
                &&& final(self).view_data()[new_end] == END_TAG
                &&& (forall|j: int|
                    1 <= j < start ==> final(self).view_data()[j] == old(self).view_data()[j])
            },
    {
        let buffer_len = buffer.len();
        if self.end + 3 + buffer_len >= self.data.len() {
            let capacity = self.data.len();
            return Err(capacity - self.end);
        }
        let start = self.end;
        self.data[start] = tag.get_value();
        self.data[start + 1] = 4 * (buffer_len as u32);
        self.data[start + 2] = REQUEST_CODE;
        let mut k: usize = 0;
        while k < buffer_len
            invariant
                self.wf(),
                buffer_len == buffer@.len(),
                k <= buffer_len,
                start == old(self).end_index(),
                self.end == start,
                start + 3 + buffer_len < self.data@.len(),
                self.data@.len() == old(self).view_data().len(),
                self.data@[start as int] == tag.value_spec(),
                self.data@[start as int + 1] == 4 * buffer@.len(),
                self.data@[start as int + 2] == REQUEST_CODE,
                forall|i: int| 0 <= i < k ==> self.data@[start + 3 + i] == buffer@[i],
                forall|j: int| 0 <= j < start ==> self.data@[j] == old(self).view_data()[j],
            decreases buffer_len - k,
        {
            self.data[start + 3 + k] = buffer[k];
            k += 1;
        }
        self.end = start + 3 + buffer_len;
        self.data[self.end] = END_TAG;
        let new_length: u32 = 4 * (self.end as u32 + 1);
        self.data[0] = new_length;
        Ok(())
    }
}

/// The buffer length in words a record at `cur` declares for its value.
pub open spec fn record_buffer_len(data: Seq<u32>, cur: int) -> int {
    data[cur + 1] as int / 4
}

/// The response length in words a record at `cur` carries: the byte count
/// the firmware wrote, rounded up.
pub open spec fn record_response_len(data: Seq<u32>, cur: int) -> int {
    ((data[cur + 2] & 0x7fff_ffff) as int + 3) / 4
}

/// A sound tag record starts at `cur`: its three header words and declared
/// buffer fit before `end`, the firmware marked it responded, and the
/// response words it names lie inside the data.
pub open spec fn record_wf(data: Seq<u32>, cur: int, end: int) -> bool {
    &&& cur + 3 <= end
    &&& cur + 3 + record_buffer_len(data, cur) <= end
    &&& data[cur + 2] >> 31 == 1
    &&& cur + 3 + record_response_len(data, cur) <= data.len()
}

/// Every record from `cur` up to `end` is sound.
pub open spec fn records_wf(data: Seq<u32>, cur: int, end: int) -> bool
    decreases end - cur,
{
    cur >= end || (record_wf(data, cur, end) && records_wf(
        data,
        cur + 3 + record_buffer_len(data, cur),
        end,
    ))
}

/// The position of the first record from `cur` whose tag value the family
/// `T` recognises.
pub open spec fn first_known_record<T: MailboxTagType>(
    data: Seq<u32>,
    cur: int,
    end: int,
) -> Option<int>
    decreases end - cur,
{
    if cur >= end || !record_wf(data, cur, end) {
        None
    } else if T::from_value_spec(data[cur]) is Some {
        Some(cur)
    } else {
        first_known_record::<T>(data, cur + 3 + record_buffer_len(data, cur), end)
    }
}

/// The response to a mailbox message: a copy of the message words after the
/// firmware overwrote them.
pub struct MailboxResponse<T: MailboxTagType> {
    data: Vec<u32>,
    end: usize,
    _t: PhantomData<T>,
}

impl<T: MailboxTagType> MailboxResponse<T> {
    /// The response words.
    pub closed spec fn view_data(self) -> Seq<u32> {
        self.data@
    }

    /// Index one past the last tag record.
    pub closed spec fn end_index(self) -> int {
        self.end as int
    }

    /// The tag records between the header and `end` are sound.
    pub open spec fn wf(self) -> bool {
        &&& self.end_index() <= self.view_data().len()
        &&& records_wf(self.view_data(), 2, self.end_index())
    }

    /// Wrap the words read back from the hardware.  The caller guarantees
    /// that the firmware left sound records, which the running kernel takes
    /// on faith from the device.
    pub fn new(data: Vec<u32>, end: usize) -> (r: Self)
        requires
            end <= data@.len(),
            records_wf(data@, 2, end as int),
        ensures
            r.wf(),
            r.view_data() == data@,
            r.end_index() == end,
    {
        MailboxResponse { data, end, _t: PhantomData }
    }

    /// An iterator over the recognised tags of the response.
    pub fn iter(&self) -> (r: MailboxResponseIterator<T>)
        requires
            self.wf(),
        ensures
            r.wf(),
            r.view_data() == self.view_data(),
            r.position() == 2,
            r.end_index() == self.end_index(),
    {
        let mut copied: Vec<u32> = Vec::new();
        let mut k: usize = 0;
        let n = self.data.len();
        while k < n
            invariant
                copied@.len() == k,
                k <= n,
                n == self.data@.len(),
                forall|i: int| 0 <= i < k ==> copied@[i] == self.data@[i],
            decreases n - k,
        {
            copied.push(self.data[k]);
            k += 1;
        }
        proof {
            assert(copied@ =~= self.data@);
        }
        MailboxResponseIterator { response_data: copied, cur: 2, end: self.end, _t: PhantomData }
    }
}

/// Walks the tag records of a response, skipping the ones whose tag value
/// the family `T` does not recognise.
pub struct MailboxResponseIterator<T: MailboxTagType> {
    response_data: Vec<u32>,
    cur: usize,
    end: usize,
    _t: PhantomData<T>,
}

impl<T: MailboxTagType> MailboxResponseIterator<T> {
    /// The response words.
    pub closed spec fn view_data(self) -> Seq<u32> {
        self.response_data@
    }

    /// The current read position.
    pub closed spec fn position(self) -> int {
        self.cur as int
    }

    /// Index one past the last tag record.
    pub closed spec fn end_index(self) -> int {
        self.end as int
    }

    /// The remaining records are sound.
    pub open spec fn wf(self) -> bool {
        &&& 0 <= self.position()
        &&& self.end_index() <= self.view_data().len()
        &&& records_wf(self.view_data(), self.position(), self.end_index())
    }

    /// The next recognised tag and a copy of its response words, or `None`
    /// once no recognised record remains.
    pub fn next(&mut self) -> (r: Option<(T, Vec<u32>)>)
        requires
            old(self).wf(),
        ensures
            final(self).wf(),
            final(self).view_data() == old(self).view_data(),
            final(self).end_index() == old(self).end_index(),
            match first_known_record::<T>(
                old(self).view_data(),
                old(self).position(),
                old(self).end_index(),
            ) {
                None => r is None,
                Some(p) => {
                    &&& r is Some
                    &&& Some(r->Some_0.0) == T::from_value_spec(old(self).view_data()[p])
                    &&& r->Some_0.1@ == old(self).view_data().subrange(
                        p + 3,
                        p + 3 + record_response_len(old(self).view_data(), p),
                    )
                    &&& final(self).position() == p + 3 + record_buffer_len(
                        old(self).view_data(),
                        p,
                    )
                },
            },
    {
        loop
            invariant
                self.wf(),
                self.view_data() == old(self).view_data(),
                self.end_index() == old(self).end_index(),
                first_known_record::<T>(self.view_data(), self.position(), self.end_index())
                    == first_known_record::<T>(
                    old(self).view_data(),
                    old(self).position(),
                    old(self).end_index(),
                ),
            decreases self.end_index() - self.position(),
        {
            if self.cur >= self.end {
                return None;
            }
            let buffer_len = (self.response_data[self.cur + 1] / 4) as usize;
            let tag = T::from_value(self.response_data[self.cur]);
            let masked: u64 = (self.response_data[self.cur + 2] & 0x7fff_ffff) as u64;
            let response_words = ((masked + 3) / 4) as usize;
            let value_start = self.cur + 3;
            let next_cur = self.cur + 3 + buffer_len;
            let n = self.response_data.len();
            match tag {
                Some(t) => {
                    let mut value_buffer: Vec<u32> = Vec::new();
                    let mut k: usize = 0;
                    while k < response_words
                        invariant
                            value_buffer@.len() == k,
                            k <= response_words,
                            n == self.response_data@.len(),
                            value_start + response_words <= n,
                            forall|i: int|
                                0 <= i < k ==> value_buffer@[i] == self.response_data@[value_start
                                    + i],
                        decreases response_words - k,
                    {
                        value_buffer.push(self.response_data[value_start + k]);
                        k += 1;
                    }
                    proof {
                        assert(value_buffer@ =~= self.view_data().subrange(
                            value_start as int,
                            value_start as int + response_words as int,
                        ));
                    }
                    self.cur = next_cur;
                    return Some((t, value_buffer));
                },
                None => {
                    self.cur = next_cur;
                },
            }
        }
    }
}

/// The tags of general hardware queries and controls on the property
/// channel.
#[derive(Clone, Copy, Debug, Hash, Eq, PartialEq, Structural)]
pub enum MiscTag {
    GetFirmwareVersion,
    GetBoardModel,
    GetBoardRevision,
    GetBoardMACAddress,
    GetBoardSerial,
    GetARMMemory,
    GetVCMemory,
    GetClocks,
    GetCommandLine,
    GetDMAChannels,
    GetPowerState,
    GetTiming,
    SetPowerState,
    GetClockState,
    SetClockState,
    GetClockRate,
    GetClockRateMeasured,
    SetClockRate,
    GetMaxClockRate,
    GetMinClockRate,
    GetTurbo,
    SetTurbo,
    GetVoltage,
    SetVoltage,
    GetMaxVoltage,
    GetMinVoltage,
    GetTemperature,
    GetMaxTemperature,
    AllocateMemory,
    LockMemory,
    UnlockMemory,
    ReleaseMemory,
    ExecuteCode,
    GetDispmanxResourceMemHandle,
    GetEDIDBlock,
}

impl MailboxTagType for MiscTag {
    open spec fn value_spec(&self) -> u32 {
        match *self {
            MiscTag::GetFirmwareVersion => 0x00000001,
            MiscTag::GetBoardModel => 0x00010001,
            MiscTag::GetBoardRevision => 0x00010002,
            MiscTag::GetBoardMACAddress => 0x00010003,
            MiscTag::GetBoardSerial => 0x00010004,
            MiscTag::GetARMMemory => 0x00010005,
            MiscTag::GetVCMemory => 0x00010006,
            MiscTag::GetClocks => 0x00010007,
            MiscTag::GetCommandLine => 0x00050001,
            MiscTag::GetDMAChannels => 0x00060001,
            MiscTag::GetPowerState => 0x00020001,
            MiscTag::GetTiming => 0x00020002,
            MiscTag::SetPowerState => 0x00028001,
            MiscTag::GetClockState => 0x00030001,
            MiscTag::SetClockState => 0x00038001,
            MiscTag::GetClockRate => 0x00030002,
            MiscTag::GetClockRateMeasured => 0x00030047,
            MiscTag::SetClockRate => 0x00038002,
            MiscTag::GetMaxClockRate => 0x00030004,
            MiscTag::GetMinClockRate => 0x00030007,
            MiscTag::GetTurbo => 0x00030009,
            MiscTag::SetTurbo => 0x00038009,
            MiscTag::GetVoltage => 0x00030003,
            MiscTag::SetVoltage => 0x00038003,
            MiscTag::GetMaxVoltage => 0x00030005,
            MiscTag::GetMinVoltage => 0x00030008,
            MiscTag::GetTemperature => 0x00030006,
            MiscTag::GetMaxTemperature => 0x0003000A,
            MiscTag::AllocateMemory => 0x0003000C,
            MiscTag::LockMemory => 0x0003000D,
            MiscTag::UnlockMemory => 0x0003000E,
            MiscTag::ReleaseMemory => 0x0003000F,
            MiscTag::ExecuteCode => 0x00030010,
            MiscTag::GetDispmanxResourceMemHandle => 0x00030014,
            MiscTag::GetEDIDBlock => 0x00030020,
        }
    }

    open spec fn from_value_spec(value: u32) -> Option<MiscTag> {
        match value {
            0x00000001 => Some(MiscTag::GetFirmwareVersion),
            0x00010001 => Some(MiscTag::GetBoardModel),
            0x00010002 => Some(MiscTag::GetBoardRevision),
            0x00010003 => Some(MiscTag::GetBoardMACAddress),
            0x00010004 => Some(MiscTag::GetBoardSerial),
            0x00010005 => Some(MiscTag::GetARMMemory),
            0x00010006 => Some(MiscTag::GetVCMemory),
            0x00010007 => Some(MiscTag::GetClocks),
            0x00050001 => Some(MiscTag::GetCommandLine),
            0x00060001 => Some(MiscTag::GetDMAChannels),
            0x00020001 => Some(MiscTag::GetPowerState),
            0x00020002 => Some(MiscTag::GetTiming),
            0x00028001 => Some(MiscTag::SetPowerState),
            0x00030001 => Some(MiscTag::GetClockState),
            0x00038001 => Some(MiscTag::SetClockState),
            0x00030002 => Some(MiscTag::GetClockRate),
            0x00030047 => Some(MiscTag::GetClockRateMeasured),
            0x00038002 => Some(MiscTag::SetClockRate),
            0x00030004 => Some(MiscTag::GetMaxClockRate),
            0x00030007 => Some(MiscTag::GetMinClockRate),
            0x00030009 => Some(MiscTag::GetTurbo),
            0x00038009 => Some(MiscTag::SetTurbo),
            0x00030003 => Some(MiscTag::GetVoltage),
            0x00038003 => Some(MiscTag::SetVoltage),
            0x00030005 => Some(MiscTag::GetMaxVoltage),
            0x00030008 => Some(MiscTag::GetMinVoltage),
            0x00030006 => Some(MiscTag::GetTemperature),
            0x0003000A => Some(MiscTag::GetMaxTemperature),
            0x0003000C => Some(MiscTag::AllocateMemory),
            0x0003000D => Some(MiscTag::LockMemory),
            0x0003000E => Some(MiscTag::UnlockMemory),
            0x0003000F => Some(MiscTag::ReleaseMemory),
            0x00030010 => Some(MiscTag::ExecuteCode),
            0x00030014 => Some(MiscTag::GetDispmanxResourceMemHandle),
            0x00030020 => Some(MiscTag::GetEDIDBlock),
            _ => None,
        }
    }

    fn get_value(&self) -> (r: u32) {
        match *self {
            MiscTag::GetFirmwareVersion => 0x00000001,
            MiscTag::GetBoardModel => 0x00010001,
            MiscTag::GetBoardRevision => 0x00010002,
            MiscTag::GetBoardMACAddress => 0x00010003,
            MiscTag::GetBoardSerial => 0x00010004,
            MiscTag::GetARMMemory => 0x00010005,
            MiscTag::GetVCMemory => 0x00010006,
            MiscTag::GetClocks => 0x00010007,
            MiscTag::GetCommandLine => 0x00050001,
            MiscTag::GetDMAChannels => 0x00060001,
            MiscTag::GetPowerState => 0x00020001,
            MiscTag::GetTiming => 0x00020002,
            MiscTag::SetPowerState => 0x00028001,
            MiscTag::GetClockState => 0x00030001,
            MiscTag::SetClockState => 0x00038001,
            MiscTag::GetClockRate => 0x00030002,
            MiscTag::GetClockRateMeasured => 0x00030047,
            MiscTag::SetClockRate => 0x00038002,
            MiscTag::GetMaxClockRate => 0x00030004,
            MiscTag::GetMinClockRate => 0x00030007,
            MiscTag::GetTurbo => 0x00030009,
            MiscTag::SetTurbo => 0x00038009,
            MiscTag::GetVoltage => 0x00030003,
            MiscTag::SetVoltage => 0x00038003,
            MiscTag::GetMaxVoltage => 0x00030005,
            MiscTag::GetMinVoltage => 0x00030008,
            MiscTag::GetTemperature => 0x00030006,
            MiscTag::GetMaxTemperature => 0x0003000A,
            MiscTag::AllocateMemory => 0x0003000C,
            MiscTag::LockMemory => 0x0003000D,
            MiscTag::UnlockMemory => 0x0003000E,
            MiscTag::ReleaseMemory => 0x0003000F,
            MiscTag::ExecuteCode => 0x00030010,
            MiscTag::GetDispmanxResourceMemHandle => 0x00030014,
            MiscTag::GetEDIDBlock => 0x00030020,
        }
    }

    fn from_value(value: u32) -> (r: Option<MiscTag>) {
        match value {
            0x00000001 => Some(MiscTag::GetFirmwareVersion),
            0x00010001 => Some(MiscTag::GetBoardModel),
            0x00010002 => Some(MiscTag::GetBoardRevision),
            0x00010003 => Some(MiscTag::GetBoardMACAddress),
            0x00010004 => Some(MiscTag::GetBoardSerial),
            0x00010005 => Some(MiscTag::GetARMMemory),
            0x00010006 => Some(MiscTag::GetVCMemory),
            0x00010007 => Some(MiscTag::GetClocks),
            0x00050001 => Some(MiscTag::GetCommandLine),
            0x00060001 => Some(MiscTag::GetDMAChannels),
            0x00020001 => Some(MiscTag::GetPowerState),
            0x00020002 => Some(MiscTag::GetTiming),
            0x00028001 => Some(MiscTag::SetPowerState),
            0x00030001 => Some(MiscTag::GetClockState),
            0x00038001 => Some(MiscTag::SetClockState),
            0x00030002 => Some(MiscTag::GetClockRate),
            0x00030047 => Some(MiscTag::GetClockRateMeasured),
            0x00038002 => Some(MiscTag::SetClockRate),
            0x00030004 => Some(MiscTag::GetMaxClockRate),
            0x00030007 => Some(MiscTag::GetMinClockRate),
            0x00030009 => Some(MiscTag::GetTurbo),
            0x00038009 => Some(MiscTag::SetTurbo),
            0x00030003 => Some(MiscTag::GetVoltage),
            0x00038003 => Some(MiscTag::SetVoltage),
            0x00030005 => Some(MiscTag::GetMaxVoltage),
            0x00030008 => Some(MiscTag::GetMinVoltage),
            0x00030006 => Some(MiscTag::GetTemperature),
            0x0003000A => Some(MiscTag::GetMaxTemperature),
            0x0003000C => Some(MiscTag::AllocateMemory),
            0x0003000D => Some(MiscTag::LockMemory),
            0x0003000E => Some(MiscTag::UnlockMemory),
            0x0003000F => Some(MiscTag::ReleaseMemory),
            0x00030010 => Some(MiscTag::ExecuteCode),
            0x00030014 => Some(MiscTag::GetDispmanxResourceMemHandle),
            0x00030020 => Some(MiscTag::GetEDIDBlock),
            _ => None,
        }
    }
}

/// Every tag maps to its value and back to itself.
pub proof fn lemma_misc_tag_round_trip(tag: MiscTag)
    ensures
        MiscTag::from_value_spec(tag.value_spec()) == Some(tag),
{
}

} // verus!
