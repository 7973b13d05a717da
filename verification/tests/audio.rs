use verdant::audio::{AudioError, Bus, VoicePool, Waveform, DEFAULT_VOICE_LIMIT};

#[test]
fn waveform_names_are_distinct() {
    let names: std::collections::BTreeSet<&str> =
        Waveform::all().iter().map(|w| w.name()).collect();
    assert_eq!(names.len(), Waveform::all().len());
}

#[test]
fn bus_names_are_distinct() {
    let names: std::collections::BTreeSet<&str> = Bus::all().iter().map(|b| b.name()).collect();
    assert_eq!(names.len(), Bus::all().len());
}

#[test]
fn only_noise_draws_on_the_random_stream() {
    for waveform in Waveform::all() {
        assert_eq!(waveform.is_random(), waveform == Waveform::Noise);
    }
    assert_eq!(Waveform::Saw.name(), "saw");
    assert_eq!(Waveform::default(), Waveform::Sine);
}

#[test]
fn buses_index_the_gain_array() {
    assert_eq!(Bus::Music.index(), 0);
    assert_eq!(Bus::Effects.index(), 1);
    assert_eq!(Bus::Ambience.index(), 2);
    assert_eq!(Bus::Ambience.name(), "ambience");
}

#[test]
fn an_empty_sound_is_refused() {
    let mut pool: VoicePool<u32> = VoicePool::new();
    assert!(pool.play(1, Bus::Effects, true).is_none());
    assert_eq!(pool.active_voices(), 0);
    assert_eq!(pool.dropped_voices(), 0);
}

#[test]
fn a_stale_handle_cannot_silence_a_new_voice() {
    let mut pool: VoicePool<u32> = VoicePool::new();
    let old = pool.play(1, Bus::Effects, false).expect("plays");
    pool.retire(old.slot());
    assert!(!pool.is_playing(old));
    let new = pool.play(2, Bus::Effects, false).expect("plays");
    assert_eq!(new.slot(), old.slot(), "the finished slot is reused");
    pool.stop(old);
    assert!(pool.is_playing(new), "the new voice was silenced");
}

#[test]
fn finished_slots_are_reused_rather_than_leaked() {
    let mut pool: VoicePool<u32> = VoicePool::new();
    for i in 0..100 {
        let id = pool.play(i, Bus::Effects, false).expect("plays");
        pool.retire(id.slot());
    }
    assert!(pool.len() <= 2, "grew to {:?} slots", pool.len());
}

#[test]
fn the_voice_limit_refuses_rather_than_growing_without_bound() {
    let mut pool: VoicePool<u32> = VoicePool::new();
    pool.set_voice_limit(4);
    for i in 0..4 {
        assert!(pool.play(i, Bus::Effects, false).is_some());
    }
    assert!(pool.play(9, Bus::Effects, false).is_none());
    assert_eq!(pool.dropped_voices(), 1);
    assert_eq!(pool.active_voices(), 4);
}

#[test]
fn stopping_a_bus_leaves_the_others_playing() {
    let mut pool: VoicePool<u32> = VoicePool::new();
    let music = pool.play(1, Bus::Music, false).expect("plays");
    let effect = pool.play(2, Bus::Effects, false).expect("plays");
    pool.stop_bus(Bus::Effects);
    assert!(pool.is_playing(music));
    assert!(!pool.is_playing(effect));
    pool.stop_all();
    assert!(!pool.is_playing(music));
}

#[test]
fn collecting_frees_finished_voices_and_keeps_the_rest_in_order() {
    let mut pool: VoicePool<u32> = VoicePool::new();
    let a = pool.play(10, Bus::Music, false).expect("plays");
    pool.play(20, Bus::Music, false).expect("plays");
    pool.play(30, Bus::Music, false).expect("plays");
    pool.stop(a);
    pool.collect();
    assert_eq!(pool.len(), 2);
    assert_eq!(pool.slot(0).payload, 20);
    assert_eq!(pool.slot(1).payload, 30);
    assert_eq!(pool.active_voices(), 2);
}

#[test]
fn the_default_limit_is_sixty_four() {
    assert_eq!(DEFAULT_VOICE_LIMIT, 64);
    let mut pool: VoicePool<u32> = VoicePool::new();
    for i in 0..64 {
        assert!(pool.play(i, Bus::Ambience, false).is_some());
    }
    assert!(pool.play(64, Bus::Ambience, false).is_none());
}

#[test]
fn a_payload_can_be_advanced_in_place() {
    let mut pool: VoicePool<u32> = VoicePool::new();
    let id = pool.play(5, Bus::Music, false).expect("plays");
    *pool.payload_mut(id.slot()) += 1;
    assert_eq!(pool.slot(id.slot()).payload, 6);
}

#[test]
fn audio_errors_explain_themselves() {
    assert_eq!(AudioError::NoDevice.message(), "no audio output device is available");
    assert_eq!(
        AudioError::Unsupported("48 kHz".to_string()).message(),
        "no supported output configuration: 48 kHz"
    );
    assert_eq!(
        AudioError::Stream("busy".to_string()).message(),
        "the audio stream failed: busy"
    );
}
