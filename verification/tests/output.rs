use keyboard_drums::output::{find_best_config, OutputRange, MIN_BUFFER_FRAMES, OUTPUT_CHANNELS};

fn range(channels: u16, min_rate: u32, max_rate: u32, binary32: bool) -> OutputRange {
    OutputRange {
        channels,
        min_sample_rate: min_rate,
        max_sample_rate: max_rate,
        binary32,
        buffer_size: Some((16, 4096)),
    }
}

#[test]
fn the_first_eligible_stereo_range_is_chosen() {
    let supported = vec![
        range(2, 44100, 44100, true),
        range(1, 8000, 192000, true),
        range(2, 8000, 192000, false),
        range(6, 48000, 48000, true),
        range(2, 48000, 96000, true),
        range(2, 8000, 48000, true),
    ];
    let chosen = find_best_config(&supported).unwrap();
    assert_eq!(chosen.index, 4);
    assert_eq!(chosen.channels, OUTPUT_CHANNELS);
    assert_eq!(chosen.sample_rate, 48000);
    assert_eq!(chosen.buffer_frames, Some(64));
}

#[test]
fn without_a_stereo_range_the_first_mono_range_is_chosen() {
    let supported = vec![
        range(2, 44100, 44100, true),
        range(6, 48000, 48000, true),
        range(1, 8000, 192000, true),
        range(1, 48000, 48000, true),
    ];
    let chosen = find_best_config(&supported).unwrap();
    assert_eq!(chosen.index, 2);
    assert_eq!(chosen.channels, 1);
    assert_eq!(chosen.sample_rate, 48000);
}

#[test]
fn a_range_of_more_than_two_channels_is_not_chosen() {
    assert!(find_best_config(&vec![range(6, 48000, 48000, true)]).is_none());
    assert!(find_best_config(&vec![range(0, 48000, 48000, true)]).is_none());
    assert!(find_best_config(&vec![range(3, 8000, 192000, true)]).is_none());
}

#[test]
fn no_range_at_the_output_rate_in_binary32_means_no_choice() {
    assert!(find_best_config(&Vec::new()).is_none());
    let supported = vec![
        range(2, 44100, 44100, true),
        range(2, 48001, 96000, true),
        range(2, 8000, 47999, true),
        range(2, 48000, 48000, false),
    ];
    assert!(find_best_config(&supported).is_none());
}

#[test]
fn the_buffer_is_the_device_minimum_raised_to_the_floor() {
    assert_eq!(MIN_BUFFER_FRAMES, 64);
    let with_buffer = |buffer_size| {
        let mut only = range(2, 48000, 48000, true);
        only.buffer_size = buffer_size;
        find_best_config(&vec![only]).map(|chosen| chosen.buffer_frames)
    };
    assert_eq!(with_buffer(Some((1, 8192))), Some(Some(64)));
    assert_eq!(with_buffer(Some((64, 8192))), Some(Some(64)));
    assert_eq!(with_buffer(Some((256, 8192))), Some(Some(256)));
    assert_eq!(with_buffer(Some((1, 64))), Some(Some(64)));
    assert_eq!(with_buffer(Some((512, 512))), Some(Some(512)));
    assert_eq!(with_buffer(None), Some(None));
}

#[test]
fn a_range_that_cannot_go_up_to_the_floor_is_not_chosen() {
    let small = |channels| {
        let mut r = range(channels, 48000, 48000, true);
        r.buffer_size = Some((1, 32));
        r
    };
    assert!(find_best_config(&vec![small(2)]).is_none());

    let mut upside_down = range(2, 48000, 48000, true);
    upside_down.buffer_size = Some((512, 256));
    assert!(find_best_config(&vec![upside_down]).is_none());

    let mut just_enough = range(1, 48000, 48000, true);
    just_enough.buffer_size = Some((1, 64));
    let chosen = find_best_config(&vec![small(2), just_enough, small(1)]).unwrap();
    assert_eq!(chosen.index, 1);
    assert_eq!(chosen.channels, 1);
    assert_eq!(chosen.buffer_frames, Some(64));
}
