use predator_vs_prey::settings::IdGenerator;
use predator_vs_prey::data::{
    advance_frame, frame_len_at_start, frame_len_from_header, position_of_id, settings_filename, AnimalState, AnimalType, Frame,
    IndexedFrameReader, PlaybackCursor, PlaybackEvent,
};

fn pose(id: usize, x: f32, y: f32, angle: f32) -> (usize, u32, u32, u32) {
    (id, x.to_bits(), y.to_bits(), angle.to_bits())
}

#[test]
fn test_animal_state_creation() {
    let state = AnimalState {
        id: 1,
        x: 10.0f32.to_bits(),
        y: 20.0f32.to_bits(),
        angle: 45.0f32.to_bits(),
        animal_type: AnimalType::Predator,
    };
    assert_eq!(state.id, 1);
    assert_eq!(f32::from_bits(state.x), 10.0);
    assert_eq!(f32::from_bits(state.y), 20.0);
}

#[test]
fn test_frame_creation_empty() {
    let predators: Vec<(usize, u32, u32, u32)> = Vec::new();
    let preys: Vec<(usize, u32, u32, u32)> = Vec::new();
    let frame = Frame::new(&predators, &preys, 0);
    assert_eq!(frame.animals.len(), 0);
}

#[test]
fn test_frame_creation_with_animals() {
    let mut ids = IdGenerator::new();
    let predators = vec![pose(ids.next_id(), 10.0, 20.0, 0.5)];
    let preys = vec![pose(ids.next_id(), 30.0, 40.0, 1.5)];
    let frame = Frame::new(&predators, &preys, 0);

    assert_eq!(frame.animals.len(), 2);
    assert_ne!(frame.animals[0].id, frame.animals[1].id);
}

#[test]
fn frame_lists_predators_then_preys() {
    let predators = vec![pose(7, 1.0, 2.0, 3.0), pose(3, 4.0, 5.0, 6.0)];
    let preys = vec![pose(11, 7.0, 8.0, 9.0)];
    let frame = Frame::new(&predators, &preys, 42);
    assert_eq!(frame.tick, 42);
    let ids: Vec<usize> = frame.animals.iter().map(|a| a.id).collect();
    assert_eq!(ids, vec![7, 3, 11]);
    assert_eq!(frame.animals[0].animal_type, AnimalType::Predator);
    assert_eq!(frame.animals[1].animal_type, AnimalType::Predator);
    assert_eq!(frame.animals[2].animal_type, AnimalType::Prey);
    assert_eq!(f32::from_bits(frame.animals[2].y), 8.0);
    assert_eq!(f32::from_bits(frame.animals[1].angle), 6.0);
}

#[test]
fn counts_split_by_kind() {
    let predators = vec![pose(1, 0.0, 0.0, 0.0), pose(2, 0.0, 0.0, 0.0)];
    let preys = vec![pose(3, 0.0, 0.0, 0.0), pose(4, 0.0, 0.0, 0.0), pose(5, 0.0, 0.0, 0.0)];
    let frame = Frame::new(&predators, &preys, 1);
    assert_eq!(frame.counts(), (2, 3));
    let empty = Frame::new(&Vec::new(), &Vec::new(), 0);
    assert_eq!(empty.counts(), (0, 0));
}

#[test]
fn settings_filename_replaces_bin_suffix() {
    assert_eq!(settings_filename("simulations/run_17.bin"), "simulations/run_17.settings.json");
    assert_eq!(settings_filename("run"), "run.settings.json");
    assert_eq!(settings_filename("a.bin.bin"), "a.settings.json");
    assert_eq!(settings_filename(".bin"), ".settings.json");
    assert_eq!(settings_filename("x.binx"), "x.binx.settings.json");
}

/// Bytes of a frame in the recording layout.
fn encode(tick: u64, animals: &[(u64, f32, f32, f32, u32)]) -> Vec<u8> {
    let mut out = Vec::new();
    out.extend_from_slice(&tick.to_le_bytes());
    out.extend_from_slice(&(animals.len() as u64).to_le_bytes());
    for &(id, x, y, a, kind) in animals {
        out.extend_from_slice(&id.to_le_bytes());
        out.extend_from_slice(&x.to_le_bytes());
        out.extend_from_slice(&y.to_le_bytes());
        out.extend_from_slice(&a.to_le_bytes());
        out.extend_from_slice(&kind.to_le_bytes());
    }
    out
}

#[test]
fn frame_index_finds_each_frame() {
    let mut bytes = encode(0, &[]);
    bytes.extend(encode(1, &[(5, 1.0, 2.0, 3.0, 0), (6, 4.0, 5.0, 6.0, 1)]));
    bytes.extend(encode(2, &[(5, 1.5, 2.5, 3.5, 0)]));
    let mut reader = IndexedFrameReader::new(&bytes);
    assert_eq!(reader.len(), 3);
    assert!(!reader.is_empty());
    assert_eq!(reader.get_frame(0), Some(0));
    assert_eq!(reader.get_frame(1), Some(16));
    assert_eq!(reader.get_frame(2), Some(16 + 16 + 48));
    assert_eq!(reader.current_index(), 0);
    reader.set_current(2);
    assert_eq!(reader.current_index(), 2);
    assert_eq!(reader.get_frame(3), None);
    assert_eq!(reader.current_index(), 2);
}

#[test]
fn frame_index_stops_at_truncated_or_bad_frame() {
    let mut bytes = encode(0, &[(1, 0.0, 0.0, 0.0, 1)]);
    let mut cut = encode(1, &[(1, 0.0, 0.0, 0.0, 1)]);
    cut.pop();
    bytes.extend(cut);
    assert_eq!(IndexedFrameReader::new(&bytes).len(), 1);

    let mut bad = encode(0, &[]);
    bad.extend(encode(1, &[(1, 0.0, 0.0, 0.0, 2)]));
    bad.extend(encode(2, &[]));
    assert_eq!(IndexedFrameReader::new(&bad).len(), 1);

    let empty: Vec<u8> = Vec::new();
    let reader = IndexedFrameReader::new(&empty);
    assert!(reader.is_empty());
    assert_eq!(reader.current_index(), 0);
}

#[test]
fn playback_wraps_to_first_frame() {
    assert_eq!(advance_frame(0, 3), 1);
    assert_eq!(advance_frame(1, 3), 2);
    assert_eq!(advance_frame(2, 3), 0);
    assert_eq!(advance_frame(0, 1), 0);
    let mut f = 1;
    for _ in 0..7 {
        f = advance_frame(f, 5);
    }
    assert_eq!(f, (1 + 7) % 5);
}

#[test]
fn playback_cursor_controls() {
    let mut c = PlaybackCursor::new();
    assert_eq!(c, PlaybackCursor { current_frame: 0, is_playing: true, is_dragging: false });
    c.tick(3);
    c.tick(3);
    assert_eq!(c.current_frame, 2);
    c.tick(3);
    assert_eq!(c.current_frame, 0);
    c.step_backward();
    assert_eq!(c.current_frame, 0);
    assert!(!c.is_playing);
    c.tick(3);
    assert_eq!(c.current_frame, 0);
    c.step_forward(3);
    c.step_forward(3);
    c.step_forward(3);
    assert_eq!(c.current_frame, 2);
    c.jump_to_start();
    assert_eq!(c.current_frame, 0);
    c.jump_to_end(3);
    assert_eq!(c.current_frame, 2);
    c.set_dragging(true);
    c.step_backward();
    assert_eq!(c.current_frame, 2);
    c.seek(10, 3);
    assert_eq!(c.current_frame, 2);
    c.seek(1, 3);
    assert_eq!(c.current_frame, 1);
    c.toggle_play();
    assert!(c.is_playing);
    c.tick(3);
    assert_eq!(c.current_frame, 1);
}

#[test]
fn first_position_of_an_id() {
    let ids = vec![4, 9, 4, 2];
    assert_eq!(position_of_id(&ids, 4), Some(0));
    assert_eq!(position_of_id(&ids, 2), Some(3));
    assert_eq!(position_of_id(&ids, 7), None);
    assert_eq!(position_of_id(&Vec::new(), 1), None);
}

#[test]
fn playback_events_stay_in_range() {
    let events = [
        PlaybackEvent::Tick,
        PlaybackEvent::JumpToEnd,
        PlaybackEvent::StepForward,
        PlaybackEvent::SetDragging(true),
        PlaybackEvent::Seek(99),
        PlaybackEvent::StepBackward,
        PlaybackEvent::SetDragging(false),
        PlaybackEvent::TogglePlay,
        PlaybackEvent::Tick,
        PlaybackEvent::JumpToStart,
        PlaybackEvent::StepBackward,
    ];
    let mut c = PlaybackCursor::new();
    let mut seen = Vec::new();
    for e in events {
        c.handle(e, 4);
        assert!(c.current_frame < 4);
        seen.push(c.current_frame);
    }
    assert_eq!(seen, vec![1, 3, 3, 3, 3, 3, 3, 3, 0, 0, 0]);
}

#[test]
fn frame_by_frame_reading_finds_the_same_frames() {
    let mut bytes = encode(3, &[(1, 0.0, 0.0, 0.0, 0)]);
    bytes.extend(encode(4, &[]));
    bytes.extend(encode(5, &[(2, 1.0, 1.0, 1.0, 1), (3, 2.0, 2.0, 2.0, 0)]));
    bytes.extend(vec![1, 2, 3]);
    let whole = IndexedFrameReader::new(&bytes);
    let mut streamed = IndexedFrameReader::new_empty();
    let mut offset = 0usize;
    loop {
        if offset + 16 > bytes.len() {
            break;
        }
        let header = bytes[offset..offset + 16].to_vec();
        let n = match frame_len_from_header(&header) {
            Some(n) => n,
            None => break,
        };
        if offset + n > bytes.len() {
            break;
        }
        let frame = bytes[offset..offset + n].to_vec();
        if frame_len_at_start(&frame) != Some(n) {
            break;
        }
        streamed.push_frame(offset as u64);
        offset += n;
    }
    assert_eq!(streamed.len(), 3);
    let mut whole = whole;
    for i in 0..3 {
        assert_eq!(streamed.get_frame(i), whole.get_frame(i));
    }
    assert_eq!(frame_len_from_header(&encode(0, &[(1, 0.0, 0.0, 0.0, 0)])[..16].to_vec()), Some(40));
}

/// The recording layout is what bincode writes for a frame: the tick, the
/// animal count, and per animal its id, x, y, angle and kind index.
#[test]
fn recording_layout_matches_bincode() {
    let f1: (usize, Vec<(usize, f32, f32, f32, u32)>) =
        (7, vec![(1, 1.0, 2.0, 3.0, 0), (2, 4.0, 5.0, 6.0, 1)]);
    let f2: (usize, Vec<(usize, f32, f32, f32, u32)>) = (8, vec![]);
    let b1 = bincode::serialize(&f1).unwrap();
    let b2 = bincode::serialize(&f2).unwrap();
    assert_eq!(b1, encode(7, &[(1, 1.0, 2.0, 3.0, 0), (2, 4.0, 5.0, 6.0, 1)]));
    let mut bytes = b1.clone();
    bytes.extend(b2);
    let mut reader = IndexedFrameReader::new(&bytes);
    assert_eq!(reader.len(), 2);
    assert_eq!(reader.get_frame(1), Some(b1.len() as u64));
    let back: (usize, Vec<(usize, f32, f32, f32, u32)>) =
        bincode::deserialize(&bytes[b1.len()..]).unwrap();
    assert_eq!(back, f2);
}
