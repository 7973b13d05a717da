use verdant::music::{compose, progressions, Chord, Scale};

#[test]
    fn every_scale_starts_on_its_root() {
        for scale in Scale::all() {
            assert_eq!(scale.degrees()[0], 0, "{} should start at 0", scale.name());
            assert_eq!(scale.pitch(60, 0), 60);
        }
    }

#[test]
    fn every_scale_stays_inside_an_octave() {
        for scale in Scale::all() {
            for degree in scale.degrees().iter() {
                assert!(
                    (0..12).contains(degree),
                    "{} has a degree outside its octave: {degree:?}",
                    scale.name()
                );
            }
            // And its degrees rise, or `pitch` would not be monotonic.
            let mut previous = -1;
            for degree in scale.degrees().iter() {
                assert!(*degree > previous);
                previous = *degree;
            }
        }
    }

#[test]
    fn degrees_past_the_scale_wrap_into_the_next_octave() {
        let scale = Scale::Major;
        let count = i32::try_from(scale.degrees().len()).expect("small");
        assert_eq!(scale.pitch(60, count), 72);
        assert_eq!(scale.pitch(60, -count), 48);
    }

#[test]
    fn pitches_rise_with_their_degree() {
        for scale in Scale::all() {
            let mut previous = 0;
            for degree in 0..20 {
                let pitch = scale.pitch(60, degree);
                assert!(
                    pitch > previous,
                    "{} degree {degree:?} did not rise",
                    scale.name()
                );
                previous = pitch;
            }
        }
    }

#[test]
    fn extreme_degrees_clamp_rather_than_overflowing() {
        // A melody that wandered far enough would otherwise wrap around into
        // a shriek or a rumble.
        assert_eq!(Scale::Major.pitch(60, 1000), 127);
        assert_eq!(Scale::Major.pitch(60, -1000), 0);
    }

#[test]
    fn a_triad_stacks_thirds_within_the_scale() {
        let chord = Chord { root: 0 };
        assert_eq!(chord.triad(), [0, 2, 4]);
        // In C major that is C, E, G.
        let pitches = chord.triad().map(|d| Scale::Major.pitch(60, d));
        assert_eq!(pitches, [60, 64, 67]);
    }

#[test]
    fn every_progression_is_four_bars() {
        for progression in progressions() {
            assert_eq!(progression.len(), 4);
            for degree in progression.iter() {
                assert!((0..7).contains(degree), "degree {degree:?} is off the scale");
            }
        }
    }


#[test]
fn a_composed_plan_has_a_bass_note_and_a_triad_per_bar() {
    let plan = compose(60, Scale::MajorPentatonic, 4, 4, 1);
    assert!(!plan.melody.is_empty());
    assert_eq!(plan.bass.len(), 4);
    assert_eq!(plan.harmony.len(), 12);
    for note in &plan.melody {
        assert!(note.bar < 4);
        assert!(note.offset + note.length <= 8, "a melody note overruns its bar");
    }
}

#[test]
fn composing_a_plan_is_deterministic_and_seeded() {
    let a = compose(60, Scale::MajorPentatonic, 4, 4, 42);
    let b = compose(60, Scale::MajorPentatonic, 4, 4, 42);
    assert_eq!(a.melody, b.melody);
    assert_ne!(
        compose(60, Scale::MajorPentatonic, 4, 4, 1).melody,
        compose(60, Scale::MajorPentatonic, 4, 4, 2).melody
    );
}

#[test]
fn every_planned_melody_note_belongs_to_the_key() {
    let plan = compose(60, Scale::Minor, 16, 4, 5);
    let allowed: Vec<i32> = Scale::Minor
        .degrees()
        .iter()
        .map(|degree| (60 + degree).rem_euclid(12))
        .collect();
    for note in plan.melody.iter().chain(plan.harmony.iter()).chain(plan.bass.iter()) {
        assert!(allowed.contains(&(i32::from(note.pitch).rem_euclid(12))));
    }
}

#[test]
fn a_bass_note_is_the_chord_root_an_octave_down() {
    let plan = compose(60, Scale::Major, 4, 4, 9);
    for (bar, note) in plan.bass.iter().enumerate() {
        let chord_degree = plan.harmony[3 * bar].pitch;
        assert_eq!(note.bar as usize, bar);
        assert_eq!(note.offset, 0);
        assert_eq!(note.length, 4);
        assert!(note.pitch < chord_degree);
        let triad = Chord { root: 0 }.triad();
        assert_eq!(triad, [0, 2, 4]);
    }
}
