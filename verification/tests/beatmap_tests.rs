use rhythmviz::beatmap::{
    BeatMap, ChartError, Geometry, HitObject, LongNote, Note, parse_hit_line, split_bytes,
};

fn lines(texts: &[&str]) -> Vec<Vec<u8>> {
    texts.iter().map(|t| t.as_bytes().to_vec()).collect()
}

#[test]
fn parses_instant_and_held_events_in_order() {
    let input = lines(&[
        "osu file format v14",
        "",
        "AudioFilename: audio.mp3",
        "[HitObjects]",
        "256,192,1000,1,0,0:0:0:0:",
        "64,192,2000,128,0,3000:0:0:0:",
    ]);
    let b = BeatMap::new(&input).unwrap();
    assert_eq!(b.audio_file_name, b"audio.mp3".to_vec());
    assert_eq!(b.hitobjects.len(), 2);
    assert_eq!(
        b.hitobjects[0],
        HitObject::Note(Note { x: 256, y: 192, time_ms: 1000, typ: 1, hitsound: 0, endtime: 0 })
    );
    assert_eq!(
        b.hitobjects[1],
        HitObject::LongNote(LongNote {
            x: 64,
            y: 192,
            time_ms: 2000,
            typ: 128,
            hitsound: 0,
            endtime: 3000,
        })
    );
}

#[test]
fn malformed_hit_line_is_a_fatal_parse_error() {
    // fewer than six comma-separated fields must not be skipped silently
    let input = lines(&["AudioFilename: a.mp3", "1,2,3"]);
    assert_eq!(BeatMap::new(&input), Err(ChartError::TooFewFields));
}

#[test]
fn non_numeric_field_is_a_fatal_parse_error() {
    let input = lines(&["12a,2,3,4,5,6:0"]);
    assert_eq!(BeatMap::new(&input), Err(ChartError::BadNumber));
    let input = lines(&["1,2,3,4,5,oops:0"]);
    assert_eq!(BeatMap::new(&input), Err(ChartError::BadNumber));
    let input = lines(&["99999999999,2,3,4,5,6:0"]); // x out of range
    assert_eq!(BeatMap::new(&input), Err(ChartError::BadNumber));
}

#[test]
fn first_error_wins_over_later_lines() {
    let input = lines(&["1,2", "1,2,3,4,5,nope"]);
    assert_eq!(BeatMap::new(&input), Err(ChartError::TooFewFields));
}

#[test]
fn last_audio_filename_header_wins() {
    let input = lines(&["AudioFilename: one.mp3", "AudioFilename:   two.mp3"]);
    let b = BeatMap::new(&input).unwrap();
    assert_eq!(b.audio_file_name, b"two.mp3".to_vec());
}

#[test]
fn unknown_headers_and_section_lines_are_ignored() {
    let input = lines(&["[General]", "Mode: 3", "Title: Song", ""]);
    let b = BeatMap::new(&input).unwrap();
    assert!(b.hitobjects.is_empty());
    assert!(b.audio_file_name.is_empty());
}

#[test]
fn note_end_time_reads_first_colon_token_of_params() {
    let r = parse_hit_line(&b"1,2,3,1,0,500:7:0:0:".to_vec());
    assert_eq!(
        r,
        Ok(HitObject::Note(Note { x: 1, y: 2, time_ms: 3, typ: 1, hitsound: 0, endtime: 500 }))
    );
}

#[test]
fn held_bit_in_type_field_selects_the_long_variant() {
    let r = parse_hit_line(&b"1,2,3,132,0,9:0".to_vec());
    assert_eq!(
        r,
        Ok(HitObject::LongNote(LongNote {
            x: 1,
            y: 2,
            time_ms: 3,
            typ: 132,
            hitsound: 0,
            endtime: 9,
        }))
    );
}

#[test]
fn split_keeps_empty_pieces() {
    let pieces = split_bytes(&b"a,,b,".to_vec(), 44);
    assert_eq!(pieces, vec![b"a".to_vec(), b"".to_vec(), b"b".to_vec(), b"".to_vec()]);
}

#[test]
fn instant_projection_inside_window() {
    let n = Note { x: 10, y: 0, time_ms: 300, typ: 1, hitsound: 0, endtime: 0 };
    // a 500 ms window on a 500-high track: 300 ms ahead sits at y = 200
    assert_eq!(n.project(0, 500, 500), Some(Geometry::Marker { x: 10, y: 200 }));
}

#[test]
fn instant_projection_boundaries() {
    let n = Note { x: 10, y: 0, time_ms: 300, typ: 1, hitsound: 0, endtime: 0 };
    // the onset boundary is excluded: an event whose time is now is gone
    assert_eq!(n.project(300, 500, 500), None);
    assert_eq!(n.project(301, 500, 500), None);
    // the far edge of the window is included
    let far = Note { x: 10, y: 0, time_ms: 500, typ: 1, hitsound: 0, endtime: 0 };
    assert_eq!(far.project(0, 500, 500), Some(Geometry::Marker { x: 10, y: 0 }));
    assert_eq!(far.project(0, 499, 500), None);
}

#[test]
fn held_projection_clips_both_ends() {
    let l = LongNote { x: 4, y: 0, time_ms: 100, typ: 128, hitsound: 0, endtime: 400 };
    // end 100 ms inside the window pushes the top down to 100; the onset
    // 100 ms ahead keeps the bar off the bottom 100 as well
    assert_eq!(l.project(0, 500, 500), Some(Geometry::Bar { x: 4, top: 100, height: 300 }));
}

#[test]
fn held_projection_fills_track_while_active() {
    let l = LongNote { x: 4, y: 0, time_ms: 100, typ: 128, hitsound: 0, endtime: 10000 };
    assert_eq!(l.project(200, 500, 500), Some(Geometry::Bar { x: 4, top: 0, height: 500 }));
}

#[test]
fn held_projection_visibility_bounds() {
    let l = LongNote { x: 4, y: 0, time_ms: 1000, typ: 128, hitsound: 0, endtime: 1100 };
    assert_eq!(l.project(0, 500, 500), None); // not yet in the window
    assert_eq!(l.project(1100, 500, 500), None); // already over
    assert!(l.project(601, 500, 500).is_some());
}

#[test]
fn hit_object_projects_by_variant() {
    let n = HitObject::Note(Note { x: 10, y: 0, time_ms: 300, typ: 1, hitsound: 0, endtime: 0 });
    assert_eq!(n.project(0, 500, 500), Some(Geometry::Marker { x: 10, y: 200 }));
    assert_eq!(n.time_ms(), 300);
    let l = HitObject::LongNote(LongNote {
        x: 4,
        y: 0,
        time_ms: 100,
        typ: 128,
        hitsound: 0,
        endtime: 400,
    });
    assert_eq!(l.project(0, 500, 500), Some(Geometry::Bar { x: 4, top: 100, height: 300 }));
    assert_eq!(l.time_ms(), 100);
}
