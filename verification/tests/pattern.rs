use rudiments::error::Error;
use rudiments::pattern::{
    amplitude_read, parse_amplitude, parse_instrument, parse_steps, parse_track, skip_blanks,
    Amplitude, Instrument, Pattern, Steps, BEATS_PER_MEASURE, SEPARATOR, STEPS_PER_MEASURE,
    STEP_PLAY, STEP_SILENT,
};

fn level(amplitude: &Amplitude) -> f32 {
    f32::from_bits(amplitude.value())
}

fn steps_of(block: &str) -> Vec<bool> {
    parse_steps(block.as_bytes()).unwrap().1.iter()
}

#[test]
fn test_parse_track() {
    let s = "a |----|----|----|----|";
    let p = parse_track(s.as_bytes()).unwrap();
    let r = p.0;
    let l = p.1;

    assert_eq!(r, "".as_bytes());
    assert_eq!(l.0, Instrument::new("a".as_bytes()));
    assert_eq!(l.1, Steps::zeros());
    assert_eq!(l.1.iter(), vec![false; STEPS_PER_MEASURE]);
}

#[test]
fn pattern_test_parse_instrument() {
    let s1 = "";
    let s2 = "a";
    let s3 = "a ";
    let s4 = "a  ";
    let s5 = "a\t";
    let s6 = "a \t";

    assert!(parse_instrument(s1.as_bytes()).is_none());
    assert_eq!(parse_instrument(s2.as_bytes()).unwrap(), ("".as_bytes(), "a".as_bytes()));
    assert_eq!(parse_instrument(s3.as_bytes()).unwrap(), (" ".as_bytes(), "a".as_bytes()));
    assert_eq!(parse_instrument(s4.as_bytes()).unwrap(), ("  ".as_bytes(), "a".as_bytes()));
    assert_eq!(parse_instrument(s5.as_bytes()).unwrap(), ("\t".as_bytes(), "a".as_bytes()));
    assert_eq!(parse_instrument(s6.as_bytes()).unwrap(), (" \t".as_bytes(), "a".as_bytes()));
}

#[test]
fn test_parse_steps() {
    let s1 = "";
    let s2 = "|----|";
    let s3 = "|----|----|----|----|-";
    let s4 = "|----|----|----|----|";
    let s5 = "|xxxx|xxxx|xxxx|xxxx|";
    let s6 = "|x-x-|x-x-|x-x-|x-x-|";

    assert!(parse_steps(s1.as_bytes()).is_none());
    assert!(parse_steps(s2.as_bytes()).is_none());
    assert!(parse_steps(s3.as_bytes()).is_none());

    let f4 = parse_steps(s4.as_bytes()).unwrap();
    assert_eq!(f4.0, "".as_bytes());
    assert_eq!(f4.1, Steps::zeros());
    assert_eq!(f4.1.iter(), vec![false; STEPS_PER_MEASURE]);

    let f5 = parse_steps(s5.as_bytes()).unwrap();
    assert_eq!(f5.0, "".as_bytes());
    assert_eq!(f5.1.iter(), vec![true; STEPS_PER_MEASURE]);

    let f6 = parse_steps(s6.as_bytes()).unwrap();
    assert_eq!(f6.0, "".as_bytes());
    assert_eq!(
        f6.1.iter(),
        vec![
            true, false, true, false, true, false, true, false, true, false, true, false, true,
            false, true, false
        ]
    );
}

#[test]
fn test_parse_amplitude() {
    let s1 = "";
    let s2 = "abc";
    let s3 = "0.0";
    let s4 = "0.5";
    let s5 = "1.0";
    let s6 = "-1.0";
    let s7 = "1.1";

    let f1 = parse_amplitude(s1.as_bytes()).unwrap();
    assert_eq!(f1.0, "".as_bytes());
    assert!(f1.1.is_none());

    let f2 = parse_amplitude(s2.as_bytes()).unwrap();
    assert_eq!(f2.0, s2.as_bytes());
    assert!(f2.1.is_none());

    let f3 = parse_amplitude(s3.as_bytes()).unwrap();
    assert_eq!(f3.0, "".as_bytes());
    assert_eq!(f3.1.map(|a| level(&a)), Some(0.0));

    let f4 = parse_amplitude(s4.as_bytes()).unwrap();
    assert_eq!(f4.0, "".as_bytes());
    assert_eq!(f4.1.map(|a| level(&a)), Some(0.5));

    let f5 = parse_amplitude(s5.as_bytes()).unwrap();
    assert_eq!(f5.0, "".as_bytes());
    assert_eq!(f5.1.map(|a| level(&a)), Some(1.0));

    assert!(parse_amplitude(s6.as_bytes()).is_none());
    assert!(parse_amplitude(s7.as_bytes()).is_none());
}

#[test]
fn measure_has_sixteen_steps_in_four_beats() {
    assert_eq!(STEPS_PER_MEASURE, 16);
    assert_eq!(BEATS_PER_MEASURE, 4);
}

#[test]
fn zeros_is_sixteen_silent_steps() {
    assert_eq!(Steps::zeros().iter(), vec![false; 16]);
}

#[test]
fn steps_come_out_in_the_order_written() {
    assert_eq!(
        steps_of("|x---|-x--|--x-|---x|"),
        vec![
            true, false, false, false, false, true, false, false, false, false, true, false,
            false, false, false, true
        ]
    );
}

#[test]
fn separators_are_not_steps_wherever_they_stand() {
    assert_eq!(steps_of("x-x-x-x-x-x-x-x-"), steps_of("|x-x-|x-x-|x-x-|x-x-|"));
    assert_eq!(steps_of("||x-x-x-x-|||x-x-x-x-"), steps_of("|x-x-|x-x-|x-x-|x-x-|"));
}

#[test]
fn step_block_of_another_length_is_rejected() {
    assert!(parse_steps("|".as_bytes()).is_none());
    assert!(parse_steps("||||".as_bytes()).is_none());
    assert!(parse_steps("|xxxx|xxxx|xxxx|xxx|".as_bytes()).is_none());
    assert!(parse_steps("|xxxx|xxxx|xxxx|xxxxx|".as_bytes()).is_none());
    assert!(parse_steps("|xxxx|xxxx|xxxx|xxxx|xxxx|xxxx|xxxx|xxxx|".as_bytes()).is_none());
    assert!(parse_steps("q".as_bytes()).is_none());
}

#[test]
fn step_block_ends_at_the_first_other_byte() {
    let p = parse_steps("|x---|x---|x---|x---| 0.5".as_bytes()).unwrap();
    assert_eq!(p.0, " 0.5".as_bytes());
    let q = parse_steps("|x---|x---|x---|x---|y".as_bytes()).unwrap();
    assert_eq!(q.0, "y".as_bytes());
}

#[test]
fn union_plays_where_either_plays() {
    let mut a = parse_steps("|x---|----|----|----|".as_bytes()).unwrap().1;
    let b = parse_steps("|----|----|x---|---x|".as_bytes()).unwrap().1;
    a.union(&b);
    assert_eq!(a.iter(), steps_of("|x---|----|x---|---x|"));
    assert_eq!(b.iter(), steps_of("|----|----|x---|---x|"));
}

#[test]
fn union_is_commutative() {
    let mut ab = parse_steps("|x-x-|----|-x--|----|".as_bytes()).unwrap().1;
    let b = parse_steps("|--x-|x---|----|---x|".as_bytes()).unwrap().1;
    let a = parse_steps("|x-x-|----|-x--|----|".as_bytes()).unwrap().1;
    let mut ba = parse_steps("|--x-|x---|----|---x|".as_bytes()).unwrap().1;
    ab.union(&b);
    ba.union(&a);
    assert_eq!(ab, ba);
    assert_eq!(ab.iter(), steps_of("|x-x-|x---|-x--|---x|"));
}

#[test]
fn union_is_idempotent() {
    let mut a = parse_steps("|x-x-|----|-x--|---x|".as_bytes()).unwrap().1;
    let same = parse_steps("|x-x-|----|-x--|---x|".as_bytes()).unwrap().1;
    a.union(&same);
    assert_eq!(a, same);
}

#[test]
fn union_with_silence_changes_nothing() {
    let mut a = parse_steps("|x-x-|----|-x--|---x|".as_bytes()).unwrap().1;
    a.union(&Steps::zeros());
    assert_eq!(a.iter(), steps_of("|x-x-|----|-x--|---x|"));
    let mut z = Steps::zeros();
    z.union(&a);
    assert_eq!(z, a);
}

#[test]
fn trailing_silence_of_silence_is_the_whole_measure() {
    assert_eq!(Steps::zeros().trailing_silent_steps(), 16);
}

#[test]
fn trailing_silence_is_nought_where_the_last_step_plays() {
    let s = parse_steps("|----|----|----|---x|".as_bytes()).unwrap().1;
    assert_eq!(s.trailing_silent_steps(), 0);
    let t = parse_steps("|xxxx|xxxx|xxxx|xxxx|".as_bytes()).unwrap().1;
    assert_eq!(t.trailing_silent_steps(), 0);
}

#[test]
fn trailing_silence_counts_from_the_last_step_that_plays() {
    let s = parse_steps("|x---|----|x---|----|".as_bytes()).unwrap().1;
    assert_eq!(s.trailing_silent_steps(), 7);
    let t = parse_steps("|x---|----|----|----|".as_bytes()).unwrap().1;
    assert_eq!(t.trailing_silent_steps(), 15);
    let u = parse_steps("|----|----|----|--x-|".as_bytes()).unwrap().1;
    assert_eq!(u.trailing_silent_steps(), 1);
}

#[test]
fn amplitude_accepts_the_closed_unit_interval() {
    assert_eq!(level(&Amplitude::from_bits(0.0f32.to_bits()).unwrap()), 0.0);
    assert_eq!(level(&Amplitude::from_bits(1.0f32.to_bits()).unwrap()), 1.0);
    assert_eq!(level(&Amplitude::from_bits(0.5f32.to_bits()).unwrap()), 0.5);
    assert_eq!(level(&Amplitude::from_bits(0.3f32.to_bits()).unwrap()), 0.3);
    assert_eq!(level(&Amplitude::from_bits(1.0e-45f32.to_bits()).unwrap()), 1.0e-45);
    assert_eq!(level(&Amplitude::from_bits(0x3f7f_ffff).unwrap()), f32::from_bits(0x3f7f_ffff));
}

#[test]
fn amplitude_of_negative_zero_is_zero() {
    let a = Amplitude::from_bits((-0.0f32).to_bits()).unwrap();
    assert_eq!(a.value(), 0);
    assert_eq!(level(&a), 0.0);
}

#[test]
fn amplitude_rejects_what_is_outside_the_interval() {
    assert!(Amplitude::from_bits(0x3f80_0001).is_none());
    assert!(Amplitude::from_bits(1.1f32.to_bits()).is_none());
    assert!(Amplitude::from_bits(2.0f32.to_bits()).is_none());
    assert!(Amplitude::from_bits((-1.0f32).to_bits()).is_none());
    assert!(Amplitude::from_bits((-1.0e-45f32).to_bits()).is_none());
    assert!(Amplitude::from_bits(f32::INFINITY.to_bits()).is_none());
    assert!(Amplitude::from_bits(f32::NEG_INFINITY.to_bits()).is_none());
    assert!(Amplitude::from_bits(f32::NAN.to_bits()).is_none());
    assert!(Amplitude::from_bits(0xffff_ffff).is_none());
}

#[test]
fn amplitude_max_is_full_volume() {
    assert_eq!(level(&Amplitude::max()), 1.0);
}

#[test]
fn amplitude_min_is_the_quieter() {
    let loud = Amplitude::from_bits(0.8f32.to_bits()).unwrap();
    let quiet = Amplitude::from_bits(0.3f32.to_bits()).unwrap();
    assert_eq!(level(&loud.min(&quiet)), 0.3);
    assert_eq!(level(&quiet.min(&loud)), 0.3);
    assert_eq!(level(&quiet.min(&quiet)), 0.3);
    assert_eq!(level(&Amplitude::max().min(&loud)), 0.8);
}

#[test]
fn amplitude_defaults_to_full_volume() {
    assert_eq!(level(&Amplitude::defaulting(None)), 1.0);
    let half = Amplitude::from_bits(0.5f32.to_bits()).unwrap();
    assert_eq!(level(&Amplitude::defaulting(Some(half))), 0.5);
}

#[test]
fn parse_amplitude_leaves_what_follows_the_number() {
    let p = parse_amplitude("0.25 rest".as_bytes()).unwrap();
    assert_eq!(p.0, " rest".as_bytes());
    assert_eq!(p.1.map(|a| level(&a)), Some(0.25));
}

#[test]
fn parse_amplitude_reads_other_spellings_of_a_number() {
    let p = parse_amplitude("5e-1".as_bytes()).unwrap();
    assert_eq!(p.0, "".as_bytes());
    assert_eq!(p.1.map(|a| level(&a)), Some(0.5));
    let q = parse_amplitude("1".as_bytes()).unwrap();
    assert_eq!(q.1.map(|a| level(&a)), Some(1.0));
    let r = parse_amplitude("0".as_bytes()).unwrap();
    assert_eq!(r.1.map(|a| level(&a)), Some(0.0));
}

#[test]
fn parse_amplitude_rejects_numbers_outside_the_interval() {
    assert!(parse_amplitude("1.0001".as_bytes()).is_none());
    assert!(parse_amplitude("2".as_bytes()).is_none());
    assert!(parse_amplitude("-0.5".as_bytes()).is_none());
    assert!(parse_amplitude("1e9".as_bytes()).is_none());
}

#[test]
fn track_with_an_amplitude() {
    let (rest, (instrument, steps, amplitude)) =
        parse_track("hi-hat |x-x-|x-x-|x-x-|x-x-| 0.5".as_bytes()).unwrap();
    assert_eq!(rest, "".as_bytes());
    assert_eq!(instrument.name(), "hi-hat".as_bytes());
    assert_eq!(steps.iter(), steps_of("|x-x-|x-x-|x-x-|x-x-|"));
    assert_eq!(level(&amplitude), 0.5);
}

#[test]
fn track_without_an_amplitude_plays_at_full_volume() {
    let (_, (_, _, amplitude)) = parse_track("snare |----|x---|----|x---|".as_bytes()).unwrap();
    assert_eq!(amplitude.value(), 1.0f32.to_bits());
    assert_eq!(level(&amplitude), 1.0);
}

#[test]
fn track_may_have_blanks_around_its_fields() {
    let (rest, (instrument, steps, amplitude)) =
        parse_track(" \tkick\t \t|x---|----|x---|----|\t0.75 \t ".as_bytes()).unwrap();
    assert_eq!(rest, "".as_bytes());
    assert_eq!(instrument, Instrument::new("kick".as_bytes()));
    assert_eq!(steps.trailing_silent_steps(), 7);
    assert_eq!(level(&amplitude), 0.75);
}

#[test]
fn track_needs_no_blank_between_steps_and_amplitude() {
    let (_, (_, _, amplitude)) = parse_track("a |----|----|----|----|0.5".as_bytes()).unwrap();
    assert_eq!(level(&amplitude), 0.5);
}

#[test]
fn track_with_leftover_content_is_rejected() {
    assert!(parse_track("a |----|----|----|----| 0.5 b".as_bytes()).is_none());
    assert!(parse_track("a |----|----|----|----| abc".as_bytes()).is_none());
    assert!(parse_track("a |----|----|----|----| 0.5 0.5".as_bytes()).is_none());
    assert!(parse_track("a |----|----|----|----|\r".as_bytes()).is_none());
}

#[test]
fn track_with_a_bad_field_is_rejected() {
    assert!(parse_track("".as_bytes()).is_none());
    assert!(parse_track("   ".as_bytes()).is_none());
    assert!(parse_track("a".as_bytes()).is_none());
    assert!(parse_track("a |----|----|----|---|".as_bytes()).is_none());
    assert!(parse_track("a |----|--o-|----|----|".as_bytes()).is_none());
    assert!(parse_track("a |----|----|----|----| 1.5".as_bytes()).is_none());
    assert!(parse_track("a |----|----|----|----| -0.1".as_bytes()).is_none());
    assert!(parse_track("|----|----|----|----|".as_bytes()).is_none());
}

#[test]
fn instrument_is_its_name() {
    let a = Instrument::new("tom-1".as_bytes());
    assert_eq!(a.name(), "tom-1".as_bytes());
    assert!(a.is(&Instrument::new("tom-1".as_bytes())));
    assert!(!a.is(&Instrument::new("tom-2".as_bytes())));
    assert!(!a.is(&Instrument::new("Tom-1".as_bytes())));
    assert_eq!(a.into_name(), "tom-1".as_bytes().to_vec());
}

#[test]
fn pattern_holds_each_track_under_its_instrument() {
    let text = "hi-hat |x-x-|x-x-|x-x-|x-x-| 0.5\nsnare  |----|x---|----|x---|\nkick   |x---|----|x---|----|\n";
    let pattern = Pattern::parse("standard".as_bytes(), Some(text.as_bytes())).unwrap();

    let hi_hat = pattern.get(&Instrument::new("hi-hat".as_bytes())).unwrap();
    assert_eq!(hi_hat.0.iter(), steps_of("|x-x-|x-x-|x-x-|x-x-|"));
    assert_eq!(level(&hi_hat.1), 0.5);

    let snare = pattern.get(&Instrument::new("snare".as_bytes())).unwrap();
    assert_eq!(snare.0.iter(), steps_of("|----|x---|----|x---|"));
    assert_eq!(level(&snare.1), 1.0);

    let kick = pattern.get(&Instrument::new("kick".as_bytes())).unwrap();
    assert_eq!(kick.0.iter(), steps_of("|x---|----|x---|----|"));
    assert_eq!(level(&kick.1), 1.0);

    assert!(pattern.get(&Instrument::new("tom".as_bytes())).is_none());
    assert!(pattern.get(&Instrument::new("Kick".as_bytes())).is_none());
}

#[test]
fn pattern_of_an_empty_file_is_empty() {
    let pattern = Pattern::parse("empty".as_bytes(), Some("".as_bytes())).unwrap();
    assert!(pattern.get(&Instrument::new("kick".as_bytes())).is_none());
}

#[test]
fn pattern_lines_may_end_with_a_carriage_return() {
    let text = "a |x---|----|----|----|\r\nb |----|----|----|---x| 0.5\r\n";
    let pattern = Pattern::parse("dos".as_bytes(), Some(text.as_bytes())).unwrap();
    assert!(pattern.get(&Instrument::new("a".as_bytes())).is_some());
    let b = pattern.get(&Instrument::new("b".as_bytes())).unwrap();
    assert_eq!(level(&b.1), 0.5);
}

#[test]
fn pattern_last_line_needs_no_line_feed() {
    let text = "a |x---|----|----|----|\nb |----|----|----|---x|";
    let pattern = Pattern::parse("p".as_bytes(), Some(text.as_bytes())).unwrap();
    assert!(pattern.get(&Instrument::new("b".as_bytes())).is_some());
}

#[test]
fn pattern_duplicate_instrument_is_an_error() {
    let text = "a |x---|----|----|----|\na |x---|----|----|----|\n";
    assert_eq!(
        Pattern::parse("p".as_bytes(), Some(text.as_bytes())).err(),
        Some(Error::DuplicatePatternError("a |x---|----|----|----|".as_bytes().to_vec()))
    );
}

#[test]
fn pattern_duplicate_instrument_is_an_error_whatever_the_tracks_hold() {
    let text = "kick |x---|----|----|----| 0.2\nsnare |----|x---|----|x---|\nkick   |-xxx|xxxx|xxxx|xxxx| 1.0\n";
    assert_eq!(
        Pattern::parse("p".as_bytes(), Some(text.as_bytes())).err(),
        Some(Error::DuplicatePatternError(
            "kick   |-xxx|xxxx|xxxx|xxxx| 1.0".as_bytes().to_vec()
        ))
    );
}

#[test]
fn pattern_malformed_line_is_an_error_with_the_line() {
    let text = "a |x---|----|----|----|\nb |x---|----|\nc |x---|----|----|----|\n";
    assert_eq!(
        Pattern::parse("p".as_bytes(), Some(text.as_bytes())).err(),
        Some(Error::ParseError("b |x---|----|".as_bytes().to_vec()))
    );
}

#[test]
fn pattern_reports_the_first_failure() {
    let text = "a |x---|----|----|----|\na |----|----|----|----|\nbad\n";
    assert_eq!(
        Pattern::parse("p".as_bytes(), Some(text.as_bytes())).err(),
        Some(Error::DuplicatePatternError("a |----|----|----|----|".as_bytes().to_vec()))
    );
    let text = "a |x---|----|----|----|\nbad\na |----|----|----|----|\n";
    assert_eq!(
        Pattern::parse("p".as_bytes(), Some(text.as_bytes())).err(),
        Some(Error::ParseError("bad".as_bytes().to_vec()))
    );
}

#[test]
fn pattern_empty_line_is_an_error() {
    let text = "a |x---|----|----|----|\n\nb |x---|----|----|----|\n";
    assert_eq!(
        Pattern::parse("p".as_bytes(), Some(text.as_bytes())).err(),
        Some(Error::ParseError(Vec::new()))
    );
    let text = "a |x---|----|----|----|\r\n\r\n";
    assert_eq!(
        Pattern::parse("p".as_bytes(), Some(text.as_bytes())).err(),
        Some(Error::ParseError(Vec::new()))
    );
}

#[test]
fn pattern_blank_line_is_an_error() {
    let text = "a |x---|----|----|----|\n \t\nb |x---|----|----|----|\n";
    assert_eq!(
        Pattern::parse("p".as_bytes(), Some(text.as_bytes())).err(),
        Some(Error::ParseError(" \t".as_bytes().to_vec()))
    );
}

#[test]
fn pattern_amplitude_out_of_range_is_an_error_not_a_clamp() {
    let text = "a |x---|----|----|----| 1.5\n";
    assert_eq!(
        Pattern::parse("p".as_bytes(), Some(text.as_bytes())).err(),
        Some(Error::ParseError("a |x---|----|----|----| 1.5".as_bytes().to_vec()))
    );
}

#[test]
fn pattern_file_that_is_no_file_is_not_found() {
    assert_eq!(
        Pattern::parse("assets/patterns".as_bytes(), None).err(),
        Some(Error::FileDoesNotExistError("assets/patterns".as_bytes().to_vec()))
    );
}

#[test]
fn pattern_gives_up_its_tracks() {
    let text = "b |----|x---|----|x---| 0.25\na |x---|----|x---|----|\n";
    let pattern = Pattern::parse("p".as_bytes(), Some(text.as_bytes())).unwrap();
    let mut tracks: Vec<(Vec<u8>, Vec<bool>, f32)> = pattern
        .into_iter()
        .into_iter()
        .map(|(instrument, (steps, amplitude))| {
            (instrument.into_name(), steps.iter(), level(&amplitude))
        })
        .collect();
    tracks.sort_by(|a, b| a.0.cmp(&b.0));
    assert_eq!(
        tracks,
        vec![
            ("a".as_bytes().to_vec(), steps_of("|x---|----|x---|----|"), 1.0),
            ("b".as_bytes().to_vec(), steps_of("|----|x---|----|x---|"), 0.25),
        ]
    );
}

#[test]
fn step_characters_are_x_dash_and_bar() {
    assert_eq!(STEP_PLAY, b'x');
    assert_eq!(STEP_SILENT, b'-');
    assert_eq!(SEPARATOR, b'|');
}

#[test]
fn skip_blanks_passes_spaces_and_tabs_only() {
    assert_eq!(skip_blanks(" \t a b ".as_bytes()), "a b ".as_bytes());
    assert_eq!(skip_blanks("a".as_bytes()), "a".as_bytes());
    assert_eq!(skip_blanks("  ".as_bytes()), "".as_bytes());
    assert_eq!(skip_blanks("\r a".as_bytes()), "\r a".as_bytes());
    assert_eq!(skip_blanks("".as_bytes()), "".as_bytes());
}

#[test]
fn amplitude_field_of_a_number_read() {
    let s = "0.5 x".as_bytes();
    let rest = " x".as_bytes();

    let absent = amplitude_read(s, None).unwrap();
    assert_eq!(absent.0, s);
    assert!(absent.1.is_none());

    let half = amplitude_read(s, Some((rest, 0.5f32.to_bits()))).unwrap();
    assert_eq!(half.0, rest);
    assert_eq!(half.1.map(|a| level(&a)), Some(0.5));

    let zero = amplitude_read(s, Some((rest, (-0.0f32).to_bits()))).unwrap();
    assert_eq!(zero.1.map(|a| a.value()), Some(0));

    assert!(amplitude_read(s, Some((rest, 1.5f32.to_bits()))).is_none());
    assert!(amplitude_read(s, Some((rest, (-0.5f32).to_bits()))).is_none());
    assert!(amplitude_read(s, Some((rest, f32::NAN.to_bits()))).is_none());
}

#[test]
fn steps_of_sixteen_booleans() {
    let mut plays = vec![false; 16];
    plays[0] = true;
    plays[9] = true;
    let steps = Steps::from_bools(&plays).unwrap();
    assert_eq!(steps.iter(), plays);
    assert_eq!(steps.iter(), steps_of("|x---|----|-x--|----|"));
    assert_eq!(steps.trailing_silent_steps(), 6);
    assert_eq!(Steps::from_bools(&[false; 16]), Some(Steps::zeros()));
}

#[test]
fn steps_of_another_number_of_booleans_are_none() {
    assert!(Steps::from_bools(&[]).is_none());
    assert!(Steps::from_bools(&[true; 15]).is_none());
    assert!(Steps::from_bools(&[true; 17]).is_none());
}
