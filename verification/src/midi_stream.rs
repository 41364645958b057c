//! Live MIDI streaming targets and the FL Studio bridge protocol.
//!
//! Bridge commands are SysEx frames `F0 7D <cmd> <7-bit args> F7`, decoded
//! by the FL-side controller script.

use vstd::prelude::*;
use crate::text::{chars_of, string_of};

verus! {

broadcast use vstd::seq_lib::group_seq_properties;

/// Where to send a stream.
#[derive(Debug, Clone, PartialEq, Eq)]
pub enum Output {
    /// Create a virtual port with this name (macOS/Linux).
    Virtual(String),
    /// Connect to an existing port whose name contains this string.
    Named(String),
}

/// Errors from MIDI streaming.
#[derive(Debug, Clone, PartialEq, Eq)]
pub enum StreamError {
    /// The project has no notes to stream.
    NothingToPlay,
    /// No output port matched the requested name.
    PortNotFound(String),
    /// Platform MIDI failure.
    Midi(String),
}

fn join(parts: Vec<Vec<char>>) -> (r: Vec<char>)
    ensures
        r@ == parts@.map_values(|p: Vec<char>| p@).flatten(),
{
    let ghost all = parts@.map_values(|p: Vec<char>| p@);
    let mut r: Vec<char> = Vec::new();
    let mut k: usize = 0;
    assert(all.subrange(0, 0).flatten() =~= Seq::<char>::empty());
    while k < parts.len()
        invariant
            all == parts@.map_values(|p: Vec<char>| p@),
            k <= parts.len(),
            r@ == all.subrange(0, k as int).flatten(),
        decreases parts.len() - k,
    {
        let ghost before = r@;
        let mut j: usize = 0;
        while j < parts[k].len()
            invariant
                k < parts@.len(),
                j <= parts@[k as int]@.len(),
                r@ == before + parts@[k as int]@.subrange(0, j as int),
            decreases parts@[k as int]@.len() - j,
        {
            r.push(parts[k][j]);
            j += 1;
        }
        proof {
            let g = parts@[k as int]@;
            assert(g.subrange(0, j as int) =~= g);
            let a = all.subrange(0, k as int);
            assert(all.subrange(0, k + 1) =~= a + seq![g]);
            vstd::seq_lib::lemma_flatten_concat(a, seq![g]);
            seq![g].lemma_flatten_one_element();
        }
        k += 1;
    }
    assert(all.subrange(0, parts.len() as int) =~= all);
    r
}

impl StreamError {
    /// Human-readable description.
    pub fn message(&self) -> (r: String)
        ensures
            self is NothingToPlay ==> r@ == "project has no notes to stream"@,
            self matches StreamError::PortNotFound(n) ==> r@ == "no MIDI output port matching '"@
                + n@ + "' (try --list-ports)"@,
            self matches StreamError::Midi(m) ==> r@ == "midi: "@ + m@,
    {
        match self {
            StreamError::NothingToPlay => String::from_str("project has no notes to stream"),
            StreamError::PortNotFound(n) => {
                let parts = vec![
                    chars_of("no MIDI output port matching '"),
                    chars_of(n.as_str()),
                    chars_of("' (try --list-ports)"),
                ];
                let ghost v = parts@.map_values(|p: Vec<char>| p@);
                proof {
                    reveal_with_fuel(Seq::<Seq<char>>::flatten, 4);
                    assert(v =~= seq![v[0], v[1], v[2]]);
                    assert(v[2] + Seq::<char>::empty() =~= v[2]);
                }
                let r = string_of(&join(parts));
                assert(r@ =~= "no MIDI output port matching '"@ + n@ + "' (try --list-ports)"@);
                r
            },
            StreamError::Midi(m) => {
                let parts = vec![chars_of("midi: "), chars_of(m.as_str())];
                let ghost v = parts@.map_values(|p: Vec<char>| p@);
                proof {
                    reveal_with_fuel(Seq::<Seq<char>>::flatten, 3);
                    assert(v =~= seq![v[0], v[1]]);
                    assert(v[1] + Seq::<char>::empty() =~= v[1]);
                }
                string_of(&join(parts))
            },
        }
    }
}

// ---------------------------------------------------------------- FL bridge

/// SysEx start byte.
pub const SYSEX_START: u8 = 0xF0;
/// Educational/experimental manufacturer id.
pub const MANUFACTURER: u8 = 0x7D;
/// SysEx end byte.
pub const SYSEX_END: u8 = 0xF7;

/// Transport command.
pub const CMD_TRANSPORT: u8 = 0x01;
/// Tempo command.
pub const CMD_TEMPO: u8 = 0x02;
/// Pattern selection command.
pub const CMD_SELECT_PATTERN: u8 = 0x03;
/// Channel selection command.
pub const CMD_SELECT_CHANNEL: u8 = 0x04;
/// Mixer level command.
pub const CMD_MIXER_LEVEL: u8 = 0x05;
/// Plugin parameter command.
pub const CMD_PLUGIN_PARAM: u8 = 0x06;
/// Metronome command.
pub const CMD_METRONOME: u8 = 0x07;

/// The two 7-bit bytes of a 14-bit value, low first.
pub open spec fn u14_spec(value: u16) -> Seq<u8> {
    seq![(value % 128) as u8, ((value / 128) % 128) as u8]
}

/// Splits a value into two 7-bit bytes, low first (bits above 14 dropped).
pub fn u14(value: u16) -> (r: [u8; 2])
    ensures
        r@ == u14_spec(value),
{
    let lo = (value & 0x7F) as u8;
    let hi = ((value >> 7) as u8) & 0x7F;
    assert(lo == value % 128) by (bit_vector)
        requires
            lo == (value & 0x7F) as u8,
    ;
    assert(hi == (value / 128) % 128) by (bit_vector)
        requires
            hi == ((value >> 7) as u8) & 0x7F,
    ;
    let r = [lo, hi];
    assert(r@ =~= u14_spec(value));
    r
}

/// A bridge frame: start, manufacturer, command, arguments, end.
pub open spec fn frame_spec(cmd: u8, args: Seq<u8>) -> Seq<u8> {
    seq![SYSEX_START, MANUFACTURER, cmd] + args + seq![SYSEX_END]
}

/// Builds one bridge SysEx frame.
pub fn frame(cmd: u8, args: &[u8]) -> (r: Vec<u8>)
    ensures
        r@ == frame_spec(cmd, args@),
{
    let mut bytes: Vec<u8> = Vec::new();
    bytes.push(SYSEX_START);
    bytes.push(MANUFACTURER);
    bytes.push(cmd);
    let mut i: usize = 0;
    while i < args.len()
        invariant
            i <= args@.len(),
            bytes@ == seq![SYSEX_START, MANUFACTURER, cmd] + args@.subrange(0, i as int),
        decreases args.len() - i,
    {
        bytes.push(args[i]);
        i += 1;
    }
    bytes.push(SYSEX_END);
    assert(args@.subrange(0, args@.len() as int) =~= args@);
    assert(bytes@ =~= frame_spec(cmd, args@));
    bytes
}

/// Transport actions understood by the FL-side script.
#[derive(Debug, Clone, Copy, PartialEq, Eq, Structural)]
pub enum Transport {
    /// Stop playback/recording.
    Stop,
    /// Start playback.
    Play,
    /// Toggle record arm.
    Record,
}

/// The wire code of a transport action.
pub open spec fn transport_code(t: Transport) -> u8 {
    match t {
        Transport::Stop => 0,
        Transport::Play => 1,
        Transport::Record => 2,
    }
}

/// The frame for a transport action.
pub fn transport_frame(action: Transport) -> (r: Vec<u8>)
    ensures
        r@ == frame_spec(CMD_TRANSPORT, seq![transport_code(action)]),
{
    let code: u8 = match action {
        Transport::Stop => 0,
        Transport::Play => 1,
        Transport::Record => 2,
    };
    let args = [code];
    assert(args@ =~= seq![code]);
    frame(CMD_TRANSPORT, &args)
}

/// The frame for a tempo given in tenths of a BPM.
pub fn tempo_frame(tenths: u16) -> (r: Vec<u8>)
    ensures
        r@ == frame_spec(CMD_TEMPO, u14_spec(tenths)),
{
    let args = u14(tenths);
    frame(CMD_TEMPO, &args)
}

/// The frame selecting a pattern (1-based, like FL's UI).
pub fn select_pattern_frame(pattern: u16) -> (r: Vec<u8>)
    ensures
        r@ == frame_spec(CMD_SELECT_PATTERN, u14_spec(pattern)),
{
    let args = u14(pattern);
    frame(CMD_SELECT_PATTERN, &args)
}

/// The frame selecting a channel-rack channel (0-based).
pub fn select_channel_frame(channel: u16) -> (r: Vec<u8>)
    ensures
        r@ == frame_spec(CMD_SELECT_CHANNEL, u14_spec(channel)),
{
    let args = u14(channel);
    frame(CMD_SELECT_CHANNEL, &args)
}

/// The frame setting a mixer track's level (level scaled to 0..=12800).
pub fn mixer_level_frame(track: u16, scaled: u16) -> (r: Vec<u8>)
    ensures
        r@ == frame_spec(CMD_MIXER_LEVEL, u14_spec(track) + u14_spec(scaled)),
{
    let a = u14(track);
    let b = u14(scaled);
    let args = [a[0], a[1], b[0], b[1]];
    assert(args@ =~= u14_spec(track) + u14_spec(scaled));
    frame(CMD_MIXER_LEVEL, &args)
}

/// The frame setting a plugin parameter (value scaled to 0..=16383).
pub fn plugin_param_frame(channel: u16, param: u16, scaled: u16) -> (r: Vec<u8>)
    ensures
        r@ == frame_spec(CMD_PLUGIN_PARAM, u14_spec(channel) + u14_spec(param) + u14_spec(scaled)),
{
    let a = u14(channel);
    let b = u14(param);
    let c = u14(scaled);
    let args = [a[0], a[1], b[0], b[1], c[0], c[1]];
    assert(args@ =~= u14_spec(channel) + u14_spec(param) + u14_spec(scaled));
    frame(CMD_PLUGIN_PARAM, &args)
}

/// The frame switching FL's metronome.
pub fn metronome_frame(on: bool) -> (r: Vec<u8>)
    ensures
        r@ == frame_spec(CMD_METRONOME, seq![if on { 1u8 } else { 0u8 }]),
{
    let args = [if on {
        1u8
    } else {
        0u8
    }];
    assert(args@ =~= seq![if on { 1u8 } else { 0u8 }]);
    frame(CMD_METRONOME, &args)
}

/// Every argument byte a frame builder emits stays below 0x80.
pub proof fn law_u14_bytes_are_seven_bit(value: u16)
    ensures
        u14_spec(value)[0] <= 0x7F,
        u14_spec(value)[1] <= 0x7F,
{
}

/// The two bytes of a 14-bit value give it back, low byte first: the
/// receiver reads `lo + 128 * hi`.
pub proof fn law_u14_decodes_to_its_value(value: u16)
    requires
        value < 0x4000,
    ensures
        u14_spec(value)[0] + 128 * u14_spec(value)[1] == value,
{
}

/// The default output name the FL bridge exposes.
pub const BRIDGE_PORT: &'static str = "MusicOS Bridge";

/// Where note streaming should go when FL is the target.
pub fn bridge_output() -> (r: Output)
    ensures
        r matches Output::Virtual(n) && n@ == BRIDGE_PORT@,
{
    Output::Virtual(String::from_str(BRIDGE_PORT))
}

} // verus!
