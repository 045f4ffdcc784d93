use pinmame_nvram::error::ErrorKind;
use pinmame_nvram::json::JsonNumber;
use pinmame_nvram::model::{
    Descriptor, Encoding, Endian, HexOrInteger, HighScore, ModeChampion, Nibble, NvramMap, StateOrStateList,
};
use pinmame_nvram::nvram::{
    clear_highscores, read_descriptor_to_u64, read_game_state, read_highscores, read_last_game,
    read_mode_champions, read_replay_score,
};

fn scale(v: u64, s: JsonNumber) -> u64 {
    match s {
        JsonNumber::PosInt(k) => (v as f64 * k as f64) as u64,
        JsonNumber::NegInt(k) => (v as f64 * k as f64) as u64,
        JsonNumber::FloatBits(b) => (v as f64 * f64::from_bits(b)) as u64,
    }
}

fn descriptor(start: i64, encoding: Encoding, length: usize) -> Descriptor {
    Descriptor {
        label: None,
        short_label: None,
        start: Some(HexOrInteger::Integer(start)),
        encoding,
        length: Some(length),
        suffix: None,
        nibble: None,
        scale: None,
        mask: None,
        offsets: None,
        null: None,
    }
}

fn empty_map() -> NvramMap {
    NvramMap {
        _endian: None,
        _nibble: None,
        _char_map: None,
        _values: None,
        last_game: None,
        high_scores: Vec::new(),
        buyin_high_scores: None,
        mode_champions: None,
        checksum8: None,
        checksum16: None,
        game_state: None,
        replay_score: None,
    }
}

fn map_with_scores() -> NvramMap {
    let mut map = empty_map();
    map.high_scores = vec![
        HighScore {
            label: Some("Grand Champion".to_string()),
            short_label: Some("GC".to_string()),
            initials: Some(descriptor(0x100, Encoding::Ch, 3)),
            score: descriptor(0x103, Encoding::Bcd, 2),
        },
        HighScore {
            label: Some("First".to_string()),
            short_label: None,
            initials: Some(descriptor(0x105, Encoding::Ch, 3)),
            score: descriptor(0x108, Encoding::Bcd, 2),
        },
    ];
    map
}

fn image() -> Vec<u8> {
    vec![0x41, 0x42, 0x43, 0x12, 0x34, 0x44, 0x45, 0x46, 0x00, 0x99, 0x07, 0xDF, 3, 9, 1, 7, 5]
}

#[test]
fn high_scores_are_read_in_order() {
    let data = image();
    let scores = read_highscores(Endian::Big, Nibble::Both, 0x100, &map_with_scores(), &data, &scale).unwrap();
    assert_eq!(2, scores.len());
    assert_eq!(Some("Grand Champion".to_string()), scores[0].label);
    assert_eq!(Some("GC".to_string()), scores[0].short_label);
    assert_eq!("ABC", scores[0].initials);
    assert_eq!(1234, scores[0].score);
    assert_eq!("DEF", scores[1].initials);
    assert_eq!(99, scores[1].score);
}

#[test]
fn buy_in_high_scores_follow_the_regular_ones() {
    let data = image();
    let mut map = map_with_scores();
    map.buyin_high_scores = Some(vec![HighScore {
        label: Some("Buy-In Score #1".to_string()),
        short_label: Some("BI#1".to_string()),
        initials: Some(descriptor(0x105, Encoding::Ch, 3)),
        score: descriptor(0x103, Encoding::Bcd, 2),
    }]);
    let scores = read_highscores(Endian::Big, Nibble::Both, 0x100, &map, &data, &scale).unwrap();
    assert_eq!(3, scores.len());
    assert_eq!(Some("Grand Champion".to_string()), scores[0].label);
    assert_eq!(Some("First".to_string()), scores[1].label);
    assert_eq!(Some("Buy-In Score #1".to_string()), scores[2].label);
    assert_eq!(Some("BI#1".to_string()), scores[2].short_label);
    assert_eq!("DEF", scores[2].initials);
    assert_eq!(1234, scores[2].score);
    assert!(can_read_highscores(&data, Endian::Big, Nibble::Both, 0x100, &map));
    // clearing writes the regular high scores only
    let mut cleared = image();
    let mut regular_only = map_with_scores();
    regular_only.high_scores.truncate(1);
    regular_only.buyin_high_scores = map.buyin_high_scores.take();
    clear_highscores(&mut cleared, Nibble::Both, 0x100, &regular_only).unwrap();
    let scores = read_highscores(Endian::Big, Nibble::Both, 0x100, &regular_only, &cleared, &scale).unwrap();
    assert_eq!(("AAA", 0), (scores[0].initials.as_str(), scores[0].score));
    assert_eq!(("DEF", 0), (scores[1].initials.as_str(), scores[1].score));
}

#[test]
fn clearing_high_scores_writes_aaa_and_zero() {
    let mut data = image();
    let map = map_with_scores();
    clear_highscores(&mut data, Nibble::Both, 0x100, &map).unwrap();
    assert_eq!(vec![0x41, 0x41, 0x41, 0, 0, 0x41, 0x41, 0x41, 0, 0], data[..10].to_vec());
    let scores = read_highscores(Endian::Big, Nibble::Both, 0x100, &map, &data, &scale).unwrap();
    assert!(scores.iter().all(|s| s.initials == "AAA" && s.score == 0));
}

#[test]
fn mode_champions_with_timestamp() {
    let mut map = empty_map();
    let mut score = descriptor(0x103, Encoding::Bcd, 2);
    score.suffix = Some(" ramps".to_string());
    map.mode_champions = Some(vec![ModeChampion {
        label: "Ramp Champion".to_string(),
        short_label: None,
        initials: Some(descriptor(0x100, Encoding::Ch, 3)),
        score: Some(score),
        timestamp: Some(descriptor(10, Encoding::WpcRtc, 7)),
    }]);
    let data = image();
    let mcs = read_mode_champions(&data, Endian::Big, Nibble::Both, 0x100, &map, &scale).unwrap().unwrap();
    assert_eq!(1, mcs.len());
    assert_eq!(Some("Ramp Champion".to_string()), mcs[0].label);
    assert_eq!(Some("ABC".to_string()), mcs[0].initials);
    assert_eq!(Some(1234), mcs[0].score);
    assert_eq!(Some(" ramps".to_string()), mcs[0].suffix);
    assert_eq!(Some("2015-03-09 07:05".to_string()), mcs[0].timestamp);
    assert!(read_mode_champions(&data, Endian::Big, Nibble::Both, 0x100, &empty_map(), &scale).unwrap().is_none());
}

#[test]
fn last_game_from_list_or_game_state() {
    let data = image();
    let mut map = empty_map();
    let mut p1 = descriptor(0x103, Encoding::Bcd, 2);
    p1.label = Some("Player 1".to_string());
    map.last_game = Some(vec![p1, descriptor(0x108, Encoding::Bcd, 2)]);
    let players = read_last_game(&data, Endian::Big, Nibble::Both, 0x100, &map, &scale).unwrap().unwrap();
    assert_eq!(2, players.len());
    assert_eq!(1234, players[0].score);
    assert_eq!(Some("Player 1".to_string()), players[0].label);
    assert_eq!(99, players[1].score);

    let mut map = empty_map();
    map.game_state = Some(vec![(
        "scores".to_string(),
        StateOrStateList::StateList(vec![descriptor(0x103, Encoding::Bcd, 2)]),
    )]);
    let players = read_last_game(&data, Endian::Big, Nibble::Both, 0x100, &map, &scale).unwrap().unwrap();
    assert_eq!(1234, players[0].score);

    let mut map = empty_map();
    map.game_state = Some(vec![(
        "scores".to_string(),
        StateOrStateList::State(Box::new(descriptor(0x103, Encoding::Bcd, 2))),
    )]);
    let e = read_last_game(&data, Endian::Big, Nibble::Both, 0x100, &map, &scale).unwrap_err();
    assert_eq!("Scores is not a StateList", e.message());
    assert!(read_last_game(&data, Endian::Big, Nibble::Both, 0x100, &empty_map(), &scale).unwrap().is_none());
}

#[test]
fn last_game_below_the_nvram_names_the_descriptor() {
    let data = image();
    let mut map = empty_map();
    let mut p1 = descriptor(0x50, Encoding::Bcd, 2);
    p1.label = Some("Player 1".to_string());
    map.last_game = Some(vec![p1]);
    let e = read_last_game(&data, Endian::Big, Nibble::Both, 0x100, &map, &scale).unwrap_err();
    assert_eq!("Descriptor 'Player 1' points outside NVRAM", e.message());
    assert_eq!(ErrorKind::InvalidData, e.kind());
}

#[test]
fn replay_score_and_int_values() {
    let data = image();
    let mut map = empty_map();
    map.replay_score = Some(descriptor(0x103, Encoding::Int, 2));
    assert_eq!(Some(0x1234), read_replay_score(&data, Endian::Big, Nibble::Both, 0x100, &map, &scale).unwrap());
    assert_eq!(None, read_replay_score(&data, Endian::Big, Nibble::Both, 0x100, &empty_map(), &scale).unwrap());
    let mut d = descriptor(0x103, Encoding::Bcd, 2);
    d.scale = Some(JsonNumber::PosInt(10));
    assert_eq!(12340, read_descriptor_to_u64(&data, &d, Endian::Big, Nibble::Both, 0x100, &scale).unwrap());
    let e = read_descriptor_to_u64(&data, &descriptor(0x50, Encoding::Bcd, 2), Endian::Big, Nibble::Both, 0x100, &scale)
        .unwrap_err();
    assert_eq!("Descriptor points outside NVRAM", e.message());
    assert_eq!(ErrorKind::InvalidData, e.kind());
}

#[test]
fn game_state_names_list_entries() {
    let data = image();
    let mut map = empty_map();
    map.game_state = Some(vec![
        ("credits".to_string(), StateOrStateList::State(Box::new(descriptor(0x109, Encoding::Int, 1)))),
        (
            "scores".to_string(),
            StateOrStateList::StateList(vec![descriptor(0x103, Encoding::Bcd, 2), descriptor(0x50, Encoding::Bcd, 2)]),
        ),
        ("player".to_string(), StateOrStateList::State(Box::new(descriptor(0x100, Encoding::Ch, 3)))),
    ]);
    let state = read_game_state(&data, Endian::Big, Nibble::Both, 0x100, &map, &scale).unwrap().unwrap();
    let get = |k: &str| state.iter().find(|(key, _)| key == k).map(|(_, v)| v.clone());
    assert_eq!(Some("153".to_string()), get("credits"));
    assert_eq!(Some("1234".to_string()), get("scores.0"));
    assert_eq!(Some("Value is stored outside the NVRAM".to_string()), get("scores.1"));
    assert_eq!(Some("ABC".to_string()), get("player"));
    assert!(read_game_state(&data, Endian::Big, Nibble::Both, 0x100, &empty_map(), &scale).unwrap().is_none());
}

use pinmame_nvram::nvram::{can_clear_highscores, can_read_highscores, can_read_mode_champions};

#[test]
fn checks_before_reading() {
    let data = image();
    let map = map_with_scores();
    assert!(can_read_highscores(&data, Endian::Big, Nibble::Both, 0x100, &map));
    assert!(can_clear_highscores(Nibble::Both, 0x100, &map));
    // initials before the NVRAM cannot be read
    let mut bad = map_with_scores();
    bad.high_scores[0].initials = Some(descriptor(0x50, Encoding::Ch, 3));
    assert!(!can_read_highscores(&data, Endian::Big, Nibble::Both, 0x100, &bad));
    assert!(!can_clear_highscores(Nibble::Both, 0x100, &bad));
    // a timestamp must be a clock
    let mut mc_map = empty_map();
    mc_map.mode_champions = Some(vec![ModeChampion {
        label: "x".to_string(),
        short_label: None,
        initials: None,
        score: None,
        timestamp: Some(descriptor(10, Encoding::Int, 7)),
    }]);
    assert!(!can_read_mode_champions(&data, Endian::Big, Nibble::Both, 0x100, &mc_map));
}

use pinmame_nvram::model::GlobalSettingsImpl;
use pinmame_nvram::nvram::read_descriptor_to_string;

#[test]
fn descriptors_without_start() {
    let data = image();
    let settings = GlobalSettingsImpl { _endian: None, _nibble: None, _char_map: None, _values: None };
    let mut ch = descriptor(0x100, Encoding::Ch, 3);
    ch.start = None;
    let e = read_descriptor_to_string(&data, &ch, Endian::Big, Nibble::Both, 0x100, &settings, &scale).unwrap_err();
    assert_eq!("Ch descriptor requires start", e.message());
    let mut int = descriptor(0x100, Encoding::Int, 1);
    int.start = None;
    let e = read_descriptor_to_u64(&data, &int, Endian::Big, Nibble::Both, 0x100, &scale).unwrap_err();
    assert_eq!("Int descriptor requires start", e.message());
    let mut bcd = descriptor(0x100, Encoding::Bcd, 1);
    bcd.start = None;
    let e = read_descriptor_to_u64(&data, &bcd, Endian::Big, Nibble::Both, 0x100, &scale).unwrap_err();
    assert_eq!("Descriptor without offsets requires start", e.message());
    // a BCD value at scattered offsets
    let mut scattered = descriptor(0x100, Encoding::Bcd, 1);
    scattered.offsets = Some(vec![HexOrInteger::Integer(0x103), HexOrInteger::Integer(0x104)]);
    assert_eq!(1234, read_descriptor_to_u64(&data, &scattered, Endian::Big, Nibble::Both, 0x100, &scale).unwrap());
    assert_eq!(
        "1234",
        read_descriptor_to_string(&data, &scattered, Endian::Big, Nibble::Both, 0x100, &settings, &scale).unwrap()
    );
}

use pinmame_nvram::checksum::{update_all_checksum16, verify_all_checksum16};
use pinmame_nvram::model::Checksum16;

#[test]
fn clear_update_then_read_and_verify() {
    // the checksum region covers the high scores and stores its sum after them
    let mut data = image();
    let map = map_with_scores();
    let checksums = Some(vec![Checksum16 {
        start: HexOrInteger::Integer(0),
        end: Some(HexOrInteger::Integer(11)),
        length: None,
        label: Some("scores".to_string()),
        _note: None,
    }]);
    clear_highscores(&mut data, Nibble::Both, 0x100, &map).unwrap();
    update_all_checksum16(&mut data, &checksums, Endian::Big).unwrap();
    let scores = read_highscores(Endian::Big, Nibble::Both, 0x100, &map, &data, &scale).unwrap();
    assert!(scores.iter().all(|s| s.initials == "AAA" && s.score == 0));
    assert!(verify_all_checksum16(&data, &checksums, Endian::Big, 0).unwrap().is_empty());
}
