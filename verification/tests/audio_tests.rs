use universal_converter::audio::{convert_audio, flac_outcome, mark_starts, AudioError, FlacStage, AudioOutput, DecodedAudio, Decoding, MAX_SAMPLES};

#[test]
fn audio_mixe_a_intervalle() {
    // 10 s mono track at 1 kHz, a mark every 3 s from 1 s.
    let track = DecodedAudio { samples: vec![0; 10_000], channels: 1, sample_rate: 1000 };
    let total = track.samples.len() / track.channels as usize;
    let starts = mark_starts(1000, 3000, total).unwrap();
    assert_eq!(starts.len(), 3, "passages à 1, 4 et 7 s (10 s = fin de piste, exclue)");
    assert_eq!(starts, vec![1000, 4000, 7000]);
}

#[test]
fn audio_sature_sans_boucler() {
    // Interval 0: a single pass.
    let starts = mark_starts(0, usize::MAX, 100).unwrap();
    assert_eq!(starts, vec![0]);
}

#[test]
fn mark_past_the_end_is_refused() {
    assert_eq!(mark_starts(100, 10, 100), Err(AudioError::OffsetPastEnd));
    assert_eq!(AudioError::OffsetPastEnd.message(), "Le décalage dépasse la durée de la piste");
}

#[test]
fn decoding_takes_rate_and_channels_from_first_block() {
    let mut d = Decoding::new(None, None);
    assert_eq!((d.sample_rate, d.channels), (44100, 2));
    d.add_block(22050, 1, &[1, 2, 3]).unwrap();
    d.add_block(48000, 2, &[4]).unwrap();
    assert_eq!((d.sample_rate, d.channels), (22050, 1));
    let a = d.finish().unwrap();
    assert_eq!(a.samples, vec![1, 2, 3, 4]);
    assert_eq!(a.channels, 1);
}

#[test]
fn decoding_refuses_silence_and_keeps_one_channel() {
    assert_eq!(Decoding::new(Some(8000), Some(1)).finish().err(), Some(AudioError::NoSamples));
    let mut d = Decoding::new(Some(8000), Some(0));
    d.started = true;
    d.add_block(8000, 0, &[7]).unwrap();
    assert_eq!(d.finish().unwrap().channels, 1);
}

#[test]
fn decoding_refuses_too_long_audio() {
    let mut d = Decoding::new(Some(8000), Some(1));
    d.samples = vec![0; MAX_SAMPLES - 1];
    assert_eq!(d.add_block(8000, 1, &[1, 2]), Err(AudioError::TooLong));
    assert_eq!(d.samples.len(), MAX_SAMPLES - 1);
    assert!(d.add_block(8000, 1, &[1]).is_ok());
}

#[test]
fn output_formats() {
    let a = DecodedAudio { samples: vec![0, 100, -100, 0], channels: 1, sample_rate: 8000 };
    assert!(matches!(convert_audio(&a, "wav"), Ok(AudioOutput::Wav)));
    match convert_audio(&a, "flac") {
        Ok(AudioOutput::Flac(b)) => assert_eq!(&b[..4], b"fLaC"),
        _ => panic!("FLAC attendu"),
    }
    assert_eq!(convert_audio(&a, "mp3").err(), Some(AudioError::UnsupportedOutput("mp3".to_string())));
    assert_eq!(
        AudioError::UnsupportedOutput("mp3".into()).message(),
        "Format audio de sortie non supporté: mp3"
    );
}

#[test]
fn flac_refuses_too_many_channels() {
    let a = DecodedAudio { samples: vec![0; 18], channels: 9, sample_rate: 8000 };
    match convert_audio(&a, "flac") {
        Err(e @ AudioError::FlacFailed(FlacStage::Encode, _)) => assert!(e.message().starts_with("Encodage FLAC: ")),
        other => panic!("refus attendu: {other:?}"),
    }
    assert_eq!(AudioError::FlacFailed(FlacStage::Config, "x".into()).message(), "Config FLAC invalide: x");
    assert_eq!(AudioError::FlacFailed(FlacStage::Write, "y".into()).message(), "FLAC write: y");
}

#[test]
fn flac_outcome_maps_the_encoder_answer() {
    assert!(matches!(flac_outcome(Ok(vec![0x66, 0x4c])), Ok(AudioOutput::Flac(b)) if b == vec![0x66, 0x4c]));
    assert!(matches!(
        flac_outcome(Err((FlacStage::Write, "disk".to_string()))),
        Err(AudioError::FlacFailed(FlacStage::Write, m)) if m == "disk"
    ));
}
