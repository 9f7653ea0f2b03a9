use rudiments::audio::{
    bind_tracks, delay_factor, delay_pad_duration, measure_duration, playback, step_duration,
    trigger_delays, Playback, Tempo, Tracks,
};
use rudiments::instrumentation::Instrumentation;
use rudiments::pattern::{parse_steps, Pattern, Steps};

const STANDARD: &str = "hi-hat |x-x-|x-x-|x-x-|x-x-| 0.5\nsnare |----|x---|----|x---|\nkick |x---|----|x---|----|\n";

fn pattern(text: &str) -> Pattern {
    Pattern::parse("pattern".as_bytes(), Some(text.as_bytes())).unwrap()
}

fn instrumentation(text: &str) -> Instrumentation {
    Instrumentation::parse("instrumentation".as_bytes(), Some(text.as_bytes())).unwrap()
}

fn steps(block: &str) -> Steps {
    parse_steps(block.as_bytes()).unwrap().1
}

fn plain(tracks: Tracks) -> Vec<(String, Vec<bool>, f32)> {
    let mut out: Vec<(String, Vec<bool>, f32)> = tracks
        .into_iter()
        .map(|(sample, (steps, amplitude))| {
            (
                String::from_utf8(sample.0).unwrap(),
                steps.iter(),
                f32::from_bits(amplitude.value()),
            )
        })
        .collect();
    out.sort_by(|a, b| a.0.cmp(&b.0));
    out
}

fn secs(nanos: u64) -> f64 {
    nanos as f64 / 1_000_000_000.0
}

#[test]
fn measure_at_120_lasts_two_seconds() {
    assert_eq!(measure_duration(&Tempo::from(120)), 2_000_000_000);
    assert_eq!(secs(measure_duration(&Tempo::from(120))), 2.0);
}

#[test]
fn step_at_120_lasts_an_eighth_of_a_second() {
    assert_eq!(step_duration(&Tempo::from(120)), 125_000_000);
    assert_eq!(secs(step_duration(&Tempo::from(120))), 0.125);
}

#[test]
fn delay_factor_at_120_is_one() {
    assert_eq!(delay_factor(&Tempo::from(120)), 120);
    assert_eq!(delay_factor(&Tempo::from(120)) as f32 / 120.0, 1.0);
}

#[test]
fn measure_is_240_seconds_by_the_tempo() {
    assert_eq!(measure_duration(&Tempo::from(1)), 240_000_000_000);
    assert_eq!(measure_duration(&Tempo::from(60)), 4_000_000_000);
    assert_eq!(measure_duration(&Tempo::from(240)), 1_000_000_000);
    assert_eq!(measure_duration(&Tempo::from(140)), 1_714_285_714);
    assert_eq!(measure_duration(&Tempo::from(65535)), 3_662_165);
}

#[test]
fn step_is_a_sixteenth_of_a_measure() {
    assert_eq!(step_duration(&Tempo::from(1)), 15_000_000_000);
    assert_eq!(step_duration(&Tempo::from(60)), 250_000_000);
    assert_eq!(step_duration(&Tempo::from(140)), 107_142_857);
    assert_eq!(step_duration(&Tempo::from(180)), 83_333_333);
}

#[test]
fn delay_factor_falls_as_the_tempo_rises() {
    assert_eq!(delay_factor(&Tempo::from(60)), 180);
    assert_eq!(delay_factor(&Tempo::from(180)), 60);
    assert_eq!(delay_factor(&Tempo::from(240)), 0);
    assert_eq!(delay_factor(&Tempo::from(241)), -1);
    assert_eq!(delay_factor(&Tempo::from(0)), 240);
    assert_eq!(delay_factor(&Tempo::from(65535)), -65295);
}

#[test]
fn pad_is_the_scaled_step_for_each_trailing_silent_step() {
    assert_eq!(delay_pad_duration(&Tempo::from(120), 0), 0);
    assert_eq!(delay_pad_duration(&Tempo::from(120), 1), 125_000_000);
    assert_eq!(delay_pad_duration(&Tempo::from(120), 3), 375_000_000);
    assert_eq!(delay_pad_duration(&Tempo::from(120), 16), 2_000_000_000);
    assert_eq!(delay_pad_duration(&Tempo::from(60), 2), 750_000_000);
    assert_eq!(delay_pad_duration(&Tempo::from(180), 4), 166_666_664);
    assert_eq!(delay_pad_duration(&Tempo::from(140), 7), 624_999_998);
}

#[test]
fn pad_is_nought_at_240() {
    assert_eq!(delay_pad_duration(&Tempo::from(240), 16), 0);
}

#[test]
fn pad_is_negative_above_240() {
    assert_eq!(delay_pad_duration(&Tempo::from(480), 1), -62_500_000);
    assert_eq!(delay_pad_duration(&Tempo::from(480), 4), -250_000_000);
    assert_eq!(delay_pad_duration(&Tempo::from(480), 0), 0);
    assert_eq!(delay_pad_duration(&Tempo::from(241), 16), -518_672 * 16);
}

#[test]
fn repeated_playback_is_padded_by_the_trailing_silence() {
    let tempo = Tempo::from(120);
    assert_eq!(
        playback(&tempo, &steps("|x---|----|x---|----|"), true),
        Playback::Repeat { pad: 875_000_000, measure: 2_000_000_000 }
    );
    assert_eq!(
        playback(&tempo, &steps("|x---|----|x---|---x|"), true),
        Playback::Repeat { pad: 0, measure: 2_000_000_000 }
    );
    assert_eq!(
        playback(&tempo, &Steps::zeros(), true),
        Playback::Repeat { pad: 2_000_000_000, measure: 2_000_000_000 }
    );
    assert_eq!(
        playback(&Tempo::from(60), &steps("|x---|----|x---|--x-|"), true),
        Playback::Repeat { pad: 375_000_000, measure: 4_000_000_000 }
    );
}

#[test]
fn repeated_playback_above_240_has_a_negative_pad() {
    assert_eq!(
        playback(&Tempo::from(480), &steps("|x---|----|x---|--x-|"), true),
        Playback::Repeat { pad: -62_500_000, measure: 500_000_000 }
    );
}

#[test]
fn single_playback_waits_for_one_measure_without_padding() {
    assert_eq!(
        playback(&Tempo::from(120), &steps("|x---|----|x---|----|"), false),
        Playback::Once { wait: 2_000_000_000 }
    );
    assert_eq!(
        playback(&Tempo::from(180), &Steps::zeros(), false),
        Playback::Once { wait: 1_333_333_333 }
    );
}

#[test]
fn triggers_are_delayed_by_their_step() {
    let tempo = Tempo::from(120);
    assert_eq!(
        trigger_delays(&tempo, &steps("|x---|----|x---|---x|")),
        vec![0, 1_000_000_000, 1_875_000_000]
    );
    assert_eq!(
        trigger_delays(&tempo, &steps("|-x--|x---|----|----|")),
        vec![125_000_000, 500_000_000]
    );
    assert!(trigger_delays(&tempo, &Steps::zeros()).is_empty());
    assert_eq!(
        trigger_delays(&Tempo::from(140), &steps("|xxxx|xxxx|xxxx|xxxx|")),
        (0..16u64).map(|i| 107_142_857 * i).collect::<Vec<u64>>()
    );
}

#[test]
fn tempo_is_its_beats_per_minute() {
    assert_eq!(Tempo::from(120), Tempo(120));
    assert_eq!(Tempo::from(120).0, 120);
    assert_ne!(Tempo::from(120), Tempo::from(121));
}

#[test]
fn tracks_of_instruments_with_a_sample_file_each_are_the_pattern_unchanged() {
    let (tracks, aggregate) = bind_tracks(
        pattern(STANDARD),
        instrumentation("hi-hat hh.wav\nsnare snare.wav\nkick kick.wav\n"),
    );
    assert_eq!(
        plain(tracks),
        vec![
            (String::from("hh.wav"), steps("|x-x-|x-x-|x-x-|x-x-|").iter(), 0.5),
            (String::from("kick.wav"), steps("|x---|----|x---|----|").iter(), 1.0),
            (String::from("snare.wav"), steps("|----|x---|----|x---|").iter(), 1.0),
        ]
    );
    assert_eq!(aggregate.iter(), steps("|x-x-|x-x-|x-x-|x-x-|").iter());
    assert_eq!(aggregate.trailing_silent_steps(), 1);
    assert_eq!(
        playback(&Tempo::from(120), &aggregate, true),
        Playback::Repeat { pad: 125_000_000, measure: 2_000_000_000 }
    );
}

#[test]
fn aggregate_of_the_standard_groove_with_a_closing_hit_has_no_trailing_silence() {
    let text = "hi-hat |x-x-|x-x-|x-x-|x-xx| 0.5\nsnare |----|x---|----|x---|\nkick |x---|----|x---|----|\n";
    let (tracks, aggregate) = bind_tracks(
        pattern(text),
        instrumentation("hi-hat hh.wav\nsnare snare.wav\nkick kick.wav\n"),
    );
    assert_eq!(tracks.len(), 3);
    assert_eq!(aggregate.trailing_silent_steps(), 0);
    assert_eq!(
        playback(&Tempo::from(120), &aggregate, true),
        Playback::Repeat { pad: 0, measure: 2_000_000_000 }
    );
}

#[test]
fn instruments_that_share_a_sample_file_make_one_track() {
    let (tracks, aggregate) = bind_tracks(
        pattern("tom-1 |x---|----|----|----| 1.0\ntom-2 |----|----|x---|----| 0.3\n"),
        instrumentation("tom-1 tom.wav\ntom-2 tom.wav\n"),
    );
    assert_eq!(
        plain(tracks),
        vec![(String::from("tom.wav"), steps("|x---|----|x---|----|").iter(), 0.3)]
    );
    assert_eq!(aggregate.iter(), steps("|x---|----|x---|----|").iter());
}

#[test]
fn tracks_do_not_depend_on_the_order_of_the_bindings() {
    let text = "a |x---|----|----|----| 0.9\nb |-x--|----|----|----| 0.2\nc |--x-|----|----|---x| 0.6\nd |----|xxxx|----|----|\n";
    let one = bind_tracks(pattern(text), instrumentation("a s.wav\nb s.wav\nc s.wav\nd t.wav\n"));
    let two = bind_tracks(pattern(text), instrumentation("c s.wav\nd t.wav\nb s.wav\na s.wav\n"));
    let three = bind_tracks(pattern(text), instrumentation("b s.wav\na s.wav\nd t.wav\nc s.wav\n"));
    let expected = vec![
        (String::from("s.wav"), steps("|xxx-|----|----|---x|").iter(), 0.2),
        (String::from("t.wav"), steps("|----|xxxx|----|----|").iter(), 1.0),
    ];
    assert_eq!(one.1, two.1);
    assert_eq!(one.1, three.1);
    assert_eq!(one.1.iter(), steps("|xxx-|xxxx|----|---x|").iter());
    assert_eq!(plain(one.0), expected);
    assert_eq!(plain(two.0), expected);
    assert_eq!(plain(three.0), expected);
}

#[test]
fn instrument_without_a_track_contributes_nothing() {
    let (tracks, aggregate) = bind_tracks(
        pattern("kick |x---|----|x---|----| 0.5\n"),
        instrumentation("kick kick.wav\nrim kick.wav\nsnare snare.wav\n"),
    );
    assert_eq!(
        plain(tracks),
        vec![
            (String::from("kick.wav"), steps("|x---|----|x---|----|").iter(), 0.5),
            (String::from("snare.wav"), vec![false; 16], 1.0),
        ]
    );
    assert_eq!(aggregate.trailing_silent_steps(), 7);
}

#[test]
fn track_without_a_binding_is_not_played() {
    let (tracks, aggregate) = bind_tracks(
        pattern("kick |x---|----|x---|----|\nsnare |----|x---|----|---x|\n"),
        instrumentation("kick kick.wav\n"),
    );
    assert_eq!(
        plain(tracks),
        vec![(String::from("kick.wav"), steps("|x---|----|x---|----|").iter(), 1.0)]
    );
    assert_eq!(aggregate.iter(), steps("|x---|----|x---|----|").iter());
}

#[test]
fn nothing_bound_is_silence() {
    let (tracks, aggregate) = bind_tracks(pattern(STANDARD), instrumentation(""));
    assert!(tracks.is_empty());
    assert_eq!(aggregate, Steps::zeros());
    assert_eq!(aggregate.trailing_silent_steps(), 16);
}
