use kernelcore::mailbox::MailboxMessageBuffer;
use kernelcore::mailbox::MailboxResponse;
use kernelcore::mailbox::MailboxTagType;
use kernelcore::mailbox::MiscTag;
use kernelcore::framebuffer::ColorFormat;
use kernelcore::framebuffer::FramebufferTag;
use kernelcore::framebuffer::parse_framebuffer_response;

#[test]
fn fresh_message_layout() {
    let message: MailboxMessageBuffer<MiscTag> = MailboxMessageBuffer::new(16);
    assert_eq!(message.word(0), 12);
    assert_eq!(message.word(1), 0);
    assert_eq!(message.word(2), 0);
    assert_eq!(message.end(), 2);
}

#[test]
fn adding_a_tag_frames_it() {
    let mut message: MailboxMessageBuffer<MiscTag> = MailboxMessageBuffer::new(16);
    let payload = vec![7, 9];
    message
        .try_add_tag(MiscTag::GetBoardSerial, &payload)
        .expect("fits");
    assert_eq!(message.end(), 7);
    assert_eq!(message.word(0), 4 * 8);
    assert_eq!(message.word(2), 0x0001_0004);
    assert_eq!(message.word(3), 8);
    assert_eq!(message.word(4), 0);
    assert_eq!(message.word(5), 7);
    assert_eq!(message.word(6), 9);
    assert_eq!(message.word(7), 0);
}

#[test]
fn rejecting_an_oversized_tag_reports_room() {
    let mut message: MailboxMessageBuffer<MiscTag> = MailboxMessageBuffer::new(8);
    let payload = vec![0, 0, 0];
    let result = message.try_add_tag(MiscTag::GetBoardSerial, &payload);
    assert_eq!(result, Err(6));
    assert_eq!(message.end(), 2);
}

#[test]
fn response_iteration_skips_unknown_tags() {
    // Header, one unknown record, one board-serial record, end position 12.
    let data = vec![
        4 * 13,
        0x8000_0000,
        0xdead_beef,
        4,
        0x8000_0004,
        0x55,
        0x0001_0004,
        8,
        0x8000_0008,
        0x11,
        0x22,
        0,
    ];
    let response: MailboxResponse<MiscTag> = MailboxResponse::new(data, 11);
    let mut iter = response.iter();
    let (tag, values) = iter.next().expect("one known tag");
    assert_eq!(tag, MiscTag::GetBoardSerial);
    assert_eq!(values, vec![0x11, 0x22]);
    assert!(iter.next().is_none());
}

#[test]
fn misc_tag_values_round_trip() {
    let tags = [
        MiscTag::GetFirmwareVersion,
        MiscTag::GetBoardSerial,
        MiscTag::GetARMMemory,
        MiscTag::SetClockRate,
        MiscTag::GetEDIDBlock,
    ];
    for tag in tags {
        assert_eq!(MiscTag::from_value(tag.get_value()), Some(tag));
    }
    assert_eq!(MiscTag::from_value(0x1234_5678), None);
    assert_eq!(MiscTag::GetBoardSerial.get_value(), 0x0001_0004);
}

#[test]
fn framebuffer_tag_values_round_trip() {
    let tags = [
        FramebufferTag::AllocateBuffer,
        FramebufferTag::SetVirtualWidthHeight,
        FramebufferTag::SetDepth,
        FramebufferTag::SetPixelOrder,
        FramebufferTag::SetCursorState,
    ];
    for tag in tags {
        assert_eq!(FramebufferTag::from_value(tag.get_value()), Some(tag));
    }
    assert_eq!(FramebufferTag::SetVirtualOffset.get_value(), 0x0004_8009);
    assert_eq!(FramebufferTag::from_value(3), None);
}

#[test]
fn framebuffer_setup_message_layout() {
    let message = kernelcore::framebuffer::framebuffer_setup_message();
    assert_eq!(message.end(), 30);
    assert_eq!(message.word(0), 124);
    assert_eq!(message.word(2), 0x0004_8004);
    assert_eq!(message.word(3), 8);
    assert_eq!(message.word(5), 640);
    assert_eq!(message.word(6), 480);
    assert_eq!(message.word(17), 0x0004_8005);
    assert_eq!(message.word(20), 32);
    assert_eq!(message.word(25), 0x0004_0001);
    assert_eq!(message.word(30), 0);
}

#[test]
fn framebuffer_response_decodes_configuration() {
    // Five answered records: dimensions, offset, depth, pixel order and the
    // allocated buffer, each with the response bit set.
    let data = vec![
        0,
        0x8000_0000,
        0x0004_8004, 8, 0x8000_0008, 640, 480,
        0x0004_8009, 8, 0x8000_0008, 0, 0,
        0x0004_8005, 4, 0x8000_0004, 32,
        0x0004_8006, 4, 0x8000_0004, 1,
        0x0004_0001, 8, 0x8000_0008, 0xc012_3000, 4096,
        0,
    ];
    let response: MailboxResponse<FramebufferTag> = MailboxResponse::new(data, 25);
    let config = parse_framebuffer_response(&response).expect("usable response");
    assert_eq!(config.width, 640);
    assert_eq!(config.height, 480);
    assert_eq!(config.format, ColorFormat::RGBA32);
    // The address field is masked down to the physical bus address.
    assert_eq!(config.address, 0x0012_3000);
}

#[test]
fn framebuffer_response_without_an_address_is_rejected() {
    let data = vec![
        0,
        0x8000_0000,
        0x0004_8004, 8, 0x8000_0008, 640, 480,
        0x0004_8009, 8, 0x8000_0008, 0, 0,
        0x0004_8005, 4, 0x8000_0004, 32,
        0x0004_8006, 4, 0x8000_0004, 1,
        0,
    ];
    let response: MailboxResponse<FramebufferTag> = MailboxResponse::new(data, 20);
    assert!(parse_framebuffer_response(&response).is_none());
}

#[test]
fn framebuffer_response_with_unsupported_depth_is_rejected() {
    let data = vec![
        0,
        0x8000_0000,
        0x0004_8004, 8, 0x8000_0008, 640, 480,
        0x0004_8009, 8, 0x8000_0008, 0, 0,
        0x0004_8005, 4, 0x8000_0004, 24,
        0x0004_8006, 4, 0x8000_0004, 1,
        0x0004_0001, 8, 0x8000_0008, 0xc012_3000, 4096,
        0,
    ];
    let response: MailboxResponse<FramebufferTag> = MailboxResponse::new(data, 25);
    assert!(parse_framebuffer_response(&response).is_none());
}
