use brtt::channel::{channel_by_number, ChannelId, ChannelRangeError, CoreChannel, CoreId};

#[test]
fn channel_lookup_uses_rtt_number_not_slice_index() {
    let channels: [usize; 2] = [1, 3];

    assert_eq!(
        channels[channel_by_number(&channels, ChannelId::new(1)).unwrap()],
        1
    );
    assert_eq!(
        channels[channel_by_number(&channels, ChannelId::new(3)).unwrap()],
        3
    );
    assert!(channel_by_number(&channels, ChannelId::new(0)).is_none());
    assert!(channel_by_number(&channels, ChannelId::new(2)).is_none());
}

#[test]
fn channel_lookup_takes_the_first_of_equal_numbers() {
    assert_eq!(channel_by_number(&[4, 7, 7], ChannelId::new(7)), Some(1));
}

#[test]
fn identities_keep_their_values() {
    assert_eq!(CoreId::new(7).value(), 7);
    assert_eq!(CoreId::new(u32::MAX).as_usize(), u32::MAX as usize);
    assert_eq!(ChannelId::new(12).value(), 12);
    assert_eq!(ChannelId::from_cli(9, "up").unwrap(), ChannelId::new(9));
}

#[test]
fn labels_name_core_and_channel() {
    let source = CoreChannel {
        core: CoreId::new(10),
        channel: ChannelId::new(0),
    };
    assert_eq!(source.label_text(), "[c10:ch0]");
    assert_eq!(source.tag_text(true), "[c10:ch0] ");
    assert_eq!(source.tag_text(false), "[ch0] ");
}

#[test]
fn range_error_names_direction_and_value() {
    let error = ChannelRangeError {
        direction: "down".to_string(),
        value: 4294967295,
    };
    assert_eq!(
        error.message(),
        "down channel index 4294967295 cannot be represented on this host"
    );
}
