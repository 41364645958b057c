use musicos::midi_stream::{
    bridge_output, frame, metronome_frame, mixer_level_frame, plugin_param_frame, select_channel_frame,
    select_pattern_frame, tempo_frame, transport_frame, u14, Output, StreamError, Transport, BRIDGE_PORT,
    CMD_MIXER_LEVEL, CMD_PLUGIN_PARAM, CMD_TEMPO, CMD_TRANSPORT,
};

#[test]
fn frames_match_the_fl_script_vectors() {
    assert_eq!(frame(CMD_TRANSPORT, &[1]), vec![0xF0, 0x7D, 0x01, 0x01, 0xF7]);
    assert_eq!(frame(CMD_TRANSPORT, &[0]), vec![0xF0, 0x7D, 0x01, 0x00, 0xF7]);
    assert_eq!(frame(CMD_TRANSPORT, &[2]), vec![0xF0, 0x7D, 0x01, 0x02, 0xF7]);
    let tempo = frame(CMD_TEMPO, &u14(925));
    assert_eq!(
        tempo,
        vec![0xF0, 0x7D, 0x02, (0x39D_u16 & 0x7F) as u8, (0x39D_u16 >> 7) as u8, 0xF7]
    );
    let mut args = u14(1).to_vec();
    args.extend_from_slice(&u14(9600));
    assert_eq!(
        frame(CMD_MIXER_LEVEL, &args),
        vec![0xF0, 0x7D, 0x05, 1, 0, (0x2580_u16 & 0x7F) as u8, (0x2580_u16 >> 7) as u8, 0xF7]
    );
    for f in [frame(CMD_PLUGIN_PARAM, &[0x7F; 6]), tempo] {
        assert!(f[2..f.len() - 1].iter().all(|b| *b <= 0x7F));
    }
}

#[test]
fn command_frames_match_the_generic_frame() {
    assert_eq!(transport_frame(Transport::Play), frame(CMD_TRANSPORT, &[1]));
    assert_eq!(transport_frame(Transport::Record), frame(CMD_TRANSPORT, &[2]));
    assert_eq!(tempo_frame(925), frame(CMD_TEMPO, &u14(925)));
    assert_eq!(select_pattern_frame(3), vec![0xF0, 0x7D, 0x03, 3, 0, 0xF7]);
    assert_eq!(select_channel_frame(130), vec![0xF0, 0x7D, 0x04, 2, 1, 0xF7]);
    assert_eq!(mixer_level_frame(1, 9600), vec![0xF0, 0x7D, 0x05, 1, 0, 0x00, 0x4B, 0xF7]);
    assert_eq!(plugin_param_frame(1, 2, 3), vec![0xF0, 0x7D, 0x06, 1, 0, 2, 0, 3, 0, 0xF7]);
    assert_eq!(metronome_frame(true), vec![0xF0, 0x7D, 0x07, 1, 0xF7]);
    assert_eq!(metronome_frame(false), vec![0xF0, 0x7D, 0x07, 0, 0xF7]);
}

#[test]
fn u14_keeps_fourteen_bits_in_seven_bit_bytes() {
    assert_eq!(u14(0x3FFF), [0x7F, 0x7F]);
    assert_eq!(u14(0xFFFF), [0x7F, 0x7F]);
    assert_eq!(u14(128), [0, 1]);
    for v in [0u16, 1, 127, 128, 5000, 16383, 40000] {
        let [lo, hi] = u14(v);
        assert!(lo <= 0x7F && hi <= 0x7F);
    }
}

#[test]
fn bridge_output_and_errors_read_well() {
    assert_eq!(bridge_output(), Output::Virtual(BRIDGE_PORT.to_string()));
    assert_eq!(StreamError::NothingToPlay.message(), "project has no notes to stream");
    assert_eq!(
        StreamError::PortNotFound("IAC".into()).message(),
        "no MIDI output port matching 'IAC' (try --list-ports)"
    );
    assert_eq!(StreamError::Midi("boom".into()).message(), "midi: boom");
}
