//! Audio conversion rules: gathering decoded PCM under a length ceiling,
//! choosing the encoder, and where a sound watermark is mixed in.
use vstd::prelude::*;

use crate::text::{chars_of, is_lit, push_all, string_of};
use flacenc::bitsink::ByteSink;
use flacenc::component::BitRepr;
use flacenc::config::Encoder;
use flacenc::encode_with_fixed_block_size;
use flacenc::error::Verify;
use flacenc::source::MemSource;

verus! {

/// Ceiling on decoded 16-bit samples (about 19 minutes of 44.1 kHz stereo).
pub const MAX_SAMPLES: usize = 100000000;

/// Decoded audio: interleaved 16-bit PCM.
#[derive(Debug)]
pub struct DecodedAudio {
    pub samples: Vec<i16>,
    pub channels: u16,
    pub sample_rate: u32,
}

/// The step of FLAC encoding that failed: checking the encoder's
/// configuration, encoding the samples, or writing the stream out.
#[derive(Clone, Copy, Debug, PartialEq, Eq, Structural)]
pub enum FlacStage {
    Config,
    Encode,
    Write,
}

/// Why audio is refused.
#[derive(Debug, PartialEq, Eq)]
pub enum AudioError {
    /// More samples than `MAX_SAMPLES`.
    TooLong,
    /// Not a single sample decoded.
    NoSamples,
    UnsupportedOutput(String),
    /// The FLAC encoder failed at this stage, with its error (debug form).
    FlacFailed(FlacStage, String),
    /// The watermark would start past the end of the track.
    OffsetPastEnd,
}

impl AudioError {
    /// The message shown to the user.
    pub fn message(&self) -> (m: String)
        ensures
            match self {
                AudioError::TooLong => m@ == "Audio trop long (limite ~19 min stéréo 44.1 kHz) — conversion refusée"@,
                AudioError::NoSamples => m@ == "Aucun échantillon audio décodé"@,
                AudioError::UnsupportedOutput(f) => m@ == "Format audio de sortie non supporté: "@ + f@,
                AudioError::FlacFailed(FlacStage::Config, e) => m@ == "Config FLAC invalide: "@ + e@,
                AudioError::FlacFailed(FlacStage::Encode, e) => m@ == "Encodage FLAC: "@ + e@,
                AudioError::FlacFailed(FlacStage::Write, e) => m@ == "FLAC write: "@ + e@,
                AudioError::OffsetPastEnd => m@ == "Le décalage dépasse la durée de la piste"@,
            },
    {
        match self {
            AudioError::TooLong => String::from_str("Audio trop long (limite ~19 min stéréo 44.1 kHz) — conversion refusée"),
            AudioError::NoSamples => String::from_str("Aucun échantillon audio décodé"),
            AudioError::UnsupportedOutput(f) => {
                let mut v = chars_of("Format audio de sortie non supporté: ");
                push_all(&mut v, chars_of(f.as_str()).as_slice());
                string_of(v.as_slice())
            },
            AudioError::FlacFailed(stage, e) => {
                let mut v = match stage {
                    FlacStage::Config => chars_of("Config FLAC invalide: "),
                    FlacStage::Encode => chars_of("Encodage FLAC: "),
                    FlacStage::Write => chars_of("FLAC write: "),
                };
                push_all(&mut v, chars_of(e.as_str()).as_slice());
                string_of(v.as_slice())
            },
            AudioError::OffsetPastEnd => String::from_str("Le décalage dépasse la durée de la piste"),
        }
    }
}

// ── Decoding ────────────────────────────────────────────────────────────────

/// Audio being decoded, block after block.
#[derive(Debug)]
pub struct Decoding {
    pub samples: Vec<i16>,
    pub channels: u16,
    pub sample_rate: u32,
    /// Whether a block has come yet: the first one fixes rate and channels.
    pub started: bool,
}

impl Decoding {
    /// The decoded samples stay under the ceiling.
    pub open spec fn wf(&self) -> bool {
        self.samples@.len() <= MAX_SAMPLES
    }

    /// Starts decoding a track from what its codec parameters announce
    /// (44.1 kHz and two channels where they say nothing).
    pub fn new(rate: Option<u32>, channels: Option<usize>) -> (d: Decoding)
        ensures
            d.wf(),
            d.samples@.len() == 0,
            !d.started,
            d.sample_rate == (match rate {
                Some(r) => r,
                None => 44100u32,
            }),
            d.channels == (match channels {
                Some(c) => c as u16,
                None => 2u16,
            }),
    {
        let sample_rate = match rate {
            Some(r) => r,
            None => 44100,
        };
        let ch: usize = match channels {
            Some(c) => c,
            None => 2,
        };
        Decoding { samples: Vec::new(), channels: ch as u16, sample_rate, started: false }
    }

    /// Adds a decoded block of interleaved samples with the rate and channel
    /// count it was decoded with; the first block fixes both. A block that
    /// would take the total past `MAX_SAMPLES` refuses the audio.
    pub fn add_block(&mut self, rate: u32, channels: usize, block: &[i16]) -> (r: Result<(), AudioError>)
        requires
            old(self).wf(),
        ensures
            final(self).wf(),
            final(self).started,
            final(self).sample_rate == (if old(self).started { old(self).sample_rate } else { rate }),
            final(self).channels == (if old(self).started { old(self).channels } else { channels as u16 }),
            old(self).samples@.len() + block@.len() > MAX_SAMPLES ==> r == Err::<(), AudioError>(
                AudioError::TooLong,
            ) && final(self).samples@ == old(self).samples@,
            old(self).samples@.len() + block@.len() <= MAX_SAMPLES ==> r is Ok && final(self).samples@
                == old(self).samples@ + block@,
    {
        if !self.started {
            self.sample_rate = rate;
            self.channels = channels as u16;
            self.started = true;
        }
        if block.len() > MAX_SAMPLES - self.samples.len() {
            return Err(AudioError::TooLong);
        }
        let ghost before = self.samples@;
        let ghost rate0 = self.sample_rate;
        let ghost channels0 = self.channels;
        let mut i: usize = 0;
        while i < block.len()
            invariant
                i <= block.len(),
                self.started,
                self.sample_rate == rate0,
                self.channels == channels0,
                before.len() + block@.len() <= MAX_SAMPLES,
                self.samples@ == before + block@.take(i as int),
            decreases block.len() - i,
        {
            self.samples.push(block[i]);
            i += 1;
            assert(self.samples@ =~= before + block@.take(i as int));
        }
        assert(block@.take(i as int) =~= block@);
        Ok(())
    }

    /// The decoded audio, refused when no sample came; at least one channel.
    pub fn finish(self) -> (r: Result<DecodedAudio, AudioError>)
        ensures
            self.samples@.len() == 0 ==> r == Err::<DecodedAudio, AudioError>(AudioError::NoSamples),
            self.samples@.len() > 0 ==> (r matches Ok(a) && a.samples@ == self.samples@ && a.sample_rate
                == self.sample_rate && a.channels == (if self.channels == 0 { 1 } else { self.channels })),
    {
        if self.samples.len() == 0 {
            return Err(AudioError::NoSamples);
        }
        let channels = if self.channels == 0 { 1 } else { self.channels };
        Ok(DecodedAudio { samples: self.samples, channels, sample_rate: self.sample_rate })
    }
}

// ── Encoding ────────────────────────────────────────────────────────────────

/// What `flacenc` gives for interleaved samples with this channel count
/// and rate (16 bits per sample, default encoder settings): the FLAC stream,
/// or the stage that failed with its error in debug form.
pub uninterp spec fn flac_result(samples: Seq<i32>, channels: usize, rate: usize) -> Result<Seq<u8>, (FlacStage, Seq<char>)>;

/// The encoder's answer seen as plain values.
pub open spec fn flac_view(r: Result<Vec<u8>, (FlacStage, String)>) -> Result<Seq<u8>, (FlacStage, Seq<char>)> {
    match r {
        Ok(b) => Ok(b@),
        Err((st, e)) => Err((st, e@)),
    }
}

/// Samples widened to 32 bits, as the encoder takes them.
pub open spec fn widen(s: Seq<i16>) -> Seq<i32> {
    s.map_values(|x: i16| x as i32)
}

/// Encodes with `flacenc::encode_with_fixed_block_size` (default verified
/// configuration and its block size, 16 bits per sample, samples from a
/// `MemSource`) and writes the stream to a `ByteSink`. The outcome is a
/// function of the arguments alone: `flac_result` of them.
#[verifier::external_body]
fn flac_encode(samples: &[i32], channels: usize, rate: usize) -> (r: Result<Vec<u8>, (FlacStage, String)>)
    ensures
        flac_view(r) == flac_result(samples@, channels, rate),
{
    let config = Encoder::default().into_verified().map_err(|e| (FlacStage::Config, format!("{e:?}")))?;
    let source = MemSource::from_samples(samples, channels, 16, rate);
    let stream = encode_with_fixed_block_size(&config, source, config.block_size)
        .map_err(|e| (FlacStage::Encode, format!("{e:?}")))?;
    let mut sink = ByteSink::new();
    stream.write(&mut sink).map_err(|e| (FlacStage::Write, format!("{e:?}")))?;
    Ok(sink.into_inner())
}

/// What a conversion to FLAC gives for the encoder's answer: the stream,
/// or the failed stage with the encoder's error.
pub fn flac_outcome(r: Result<Vec<u8>, (FlacStage, String)>) -> (o: Result<AudioOutput, AudioError>)
    ensures
        match flac_view(r) {
            Ok(b) => o matches Ok(AudioOutput::Flac(x)) && x@ == b,
            Err((stage, e)) => o matches Err(AudioError::FlacFailed(st, m)) && st == stage && m@ == e,
        },
{
    match r {
        Ok(b) => Ok(AudioOutput::Flac(b)),
        Err((stage, e)) => Err(AudioError::FlacFailed(stage, e)),
    }
}

fn widen_exec(s: &[i16]) -> (r: Vec<i32>)
    ensures
        r@ == widen(s@),
{
    let mut r: Vec<i32> = Vec::new();
    let mut i: usize = 0;
    while i < s.len()
        invariant
            i <= s.len(),
            r@ == widen(s@.take(i as int)),
        decreases s.len() - i,
    {
        r.push(s[i] as i32);
        i += 1;
        assert(widen(s@.take(i as int)) =~= widen(s@.take(i - 1)).push(s@[i - 1] as i32));
    }
    assert(s@.take(i as int) =~= s@);
    r
}

/// What a conversion writes.
#[derive(Debug)]
pub enum AudioOutput {
    /// 16-bit PCM WAV of the decoded audio.
    Wav,
    /// A FLAC stream, ready to be written out.
    Flac(Vec<u8>),
}

/// Chooses the encoder for an output format and runs it where it computes
/// in memory (`convert_audio`).
pub fn convert_audio(audio: &DecodedAudio, fmt: &str) -> (r: Result<AudioOutput, AudioError>)
    ensures
        fmt@ == "wav"@ ==> r matches Ok(AudioOutput::Wav),
        fmt@ == "flac"@ ==> match flac_result(
            widen(audio.samples@),
            audio.channels as usize,
            audio.sample_rate as usize,
        ) {
            Ok(b) => r matches Ok(AudioOutput::Flac(x)) && x@ == b,
            Err((stage, e)) => r matches Err(AudioError::FlacFailed(st, m)) && st == stage && m@ == e,
        },
        fmt@ != "wav"@ && fmt@ != "flac"@ ==> (r matches Err(AudioError::UnsupportedOutput(f)) && f@
            == fmt@),
{
    let f = chars_of(fmt);
    proof {
        reveal_strlit("wav");
        reveal_strlit("flac");
    }
    if is_lit(f.as_slice(), "wav") {
        assert(fmt@.len() != "flac"@.len());
        Ok(AudioOutput::Wav)
    } else if is_lit(f.as_slice(), "flac") {
        let wide = widen_exec(audio.samples.as_slice());
        flac_outcome(flac_encode(wide.as_slice(), audio.channels as usize, audio.sample_rate as usize))
    } else {
        Err(AudioError::UnsupportedOutput(fmt.to_string()))
    }
}

// ── Sound watermark ─────────────────────────────────────────────────────────

/// Frames at which the watermark sound starts: from `first`, every `step`
/// frames, while inside the track and without overflow.
pub open spec fn starts_spec(first: usize, step: usize, total: usize) -> Seq<usize>
    decreases total - first,
{
    if first >= total || step == 0 {
        seq![]
    } else if first + step > usize::MAX || first + step >= total {
        seq![first]
    } else {
        seq![first] + starts_spec((first + step) as usize, step, total)
    }
}

/// The frames at which the watermark sound is mixed in, or the refusal when
/// the first one is already past the end of the track.
pub fn mark_starts(first: usize, step: usize, total_frames: usize) -> (r: Result<Vec<usize>, AudioError>)
    requires
        step >= 1,
    ensures
        first >= total_frames ==> r == Err::<Vec<usize>, AudioError>(AudioError::OffsetPastEnd),
        first < total_frames ==> (r matches Ok(v) && v@ == starts_spec(first, step, total_frames)),
{
    if first >= total_frames {
        return Err(AudioError::OffsetPastEnd);
    }
    let mut v: Vec<usize> = Vec::new();
    let mut start = first;
    let mut going = true;
    while going && start < total_frames
        invariant
            step >= 1,
            going ==> v@ + starts_spec(start, step, total_frames) == starts_spec(first, step, total_frames),
            !going ==> v@ == starts_spec(first, step, total_frames),
        decreases usize::MAX - start + (if going { 1int } else { 0int }),
    {
        v.push(start);
        match start.checked_add(step) {
            Some(n) => {
                assert(starts_spec(start, step, total_frames) == seq![start] + starts_spec(n, step, total_frames));
                start = n;
            },
            None => {
                going = false;
            },
        }
    }
    proof {
        if going {
            assert(starts_spec(start, step, total_frames) == Seq::<usize>::empty());
        }
    }
    Ok(v)
}

} // verus!
