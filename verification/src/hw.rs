//! Video encoders: which there are, and in what order they are tried.

use crate::text::str_eq;
use vstd::prelude::*;
use vstd::string::*;

verus! {

/// A hardware H.264 encoder.
#[derive(Clone, Copy, Debug, PartialEq, Eq, Structural)]
pub enum HwCodec {
    Nvenc,
    Amf,
    Qsv,
}

/// Which encoder the user asks for.
#[derive(Clone, Copy, Debug, PartialEq, Eq, Structural)]
pub enum EncoderPref {
    /// The best that is available.
    Auto,
    /// A hardware encoder, or the software encoder where it is not available.
    Specific(HwCodec),
    /// The software encoder.
    Software,
}

/// The hardware encoder that a command-line value names.
pub open spec fn codec_of(s: Seq<char>) -> Option<HwCodec> {
    if s == "nvenc"@ {
        Some(HwCodec::Nvenc)
    } else if s == "amf"@ {
        Some(HwCodec::Amf)
    } else if s == "qsv"@ {
        Some(HwCodec::Qsv)
    } else {
        None
    }
}

impl HwCodec {
    /// The name under which the encoder is found.
    pub open spec fn name(self) -> Seq<char> {
        match self {
            HwCodec::Nvenc => "h264_nvenc"@,
            HwCodec::Amf => "h264_amf"@,
            HwCodec::Qsv => "h264_qsv"@,
        }
    }

    /// The name under which the encoder is found.
    pub fn encoder_name(self) -> (name: &'static str)
        ensures
            name@ == self.name(),
    {
        match self {
            HwCodec::Nvenc => "h264_nvenc",
            HwCodec::Amf => "h264_amf",
            HwCodec::Qsv => "h264_qsv",
        }
    }

    /// All hardware encoders, in the order in which they are tried.
    pub fn all() -> (codecs: [HwCodec; 3])
        ensures
            codecs@ == seq![HwCodec::Nvenc, HwCodec::Amf, HwCodec::Qsv],
    {
        let codecs = [HwCodec::Nvenc, HwCodec::Amf, HwCodec::Qsv];
        assert(codecs@ =~= seq![HwCodec::Nvenc, HwCodec::Amf, HwCodec::Qsv]);
        codecs
    }

    /// The hardware encoder that a command-line value names.
    pub fn from_cli(s: &str) -> (codec: Option<HwCodec>)
        ensures
            codec == codec_of(s@),
    {
        if str_eq(s, "nvenc") {
            Some(HwCodec::Nvenc)
        } else if str_eq(s, "amf") {
            Some(HwCodec::Amf)
        } else if str_eq(s, "qsv") {
            Some(HwCodec::Qsv)
        } else {
            None
        }
    }
}

/// The preference that a command-line value stands for.
pub open spec fn pref_of(s: Seq<char>) -> Option<EncoderPref> {
    if s == "auto"@ {
        Some(EncoderPref::Auto)
    } else if s == "software"@ {
        Some(EncoderPref::Software)
    } else {
        match codec_of(s) {
            Some(codec) => Some(EncoderPref::Specific(codec)),
            None => None,
        }
    }
}

/// The encoders that are tried for a preference, in order; `None` is the software encoder.
pub open spec fn candidates_of(pref: EncoderPref) -> Seq<Option<HwCodec>> {
    match pref {
        EncoderPref::Auto => seq![
            Some(HwCodec::Nvenc),
            Some(HwCodec::Amf),
            Some(HwCodec::Qsv),
            None,
        ],
        EncoderPref::Specific(codec) => seq![Some(codec), None],
        EncoderPref::Software => seq![None],
    }
}

impl EncoderPref {
    /// The preference that a command-line value stands for.
    pub fn from_cli(s: &str) -> (pref: Option<EncoderPref>)
        ensures
            pref == pref_of(s@),
    {
        if str_eq(s, "auto") {
            Some(EncoderPref::Auto)
        } else if str_eq(s, "software") {
            Some(EncoderPref::Software)
        } else {
            match HwCodec::from_cli(s) {
                Some(codec) => Some(EncoderPref::Specific(codec)),
                None => None,
            }
        }
    }

    /// The encoders that are tried, in order; `None` is the software encoder.
    pub fn candidates(self) -> (v: Vec<Option<HwCodec>>)
        ensures
            v@ == candidates_of(self),
    {
        let mut v: Vec<Option<HwCodec>> = Vec::new();
        match self {
            EncoderPref::Auto => {
                let all = HwCodec::all();
                v.push(Some(all[0]));
                v.push(Some(all[1]));
                v.push(Some(all[2]));
            },
            EncoderPref::Specific(codec) => {
                v.push(Some(codec));
            },
            EncoderPref::Software => {},
        }
        v.push(None);
        assert(v@ == candidates_of(self));
        v
    }
}

/// Whatever is asked for, the software encoder is the last to be tried, and is tried once.
pub proof fn law_software_is_last_resort(pref: EncoderPref)
    ensures
        candidates_of(pref).last() is None,
        forall|i: int|
            0 <= i < candidates_of(pref).len() - 1 ==> (#[trigger] candidates_of(pref)[i]) is Some,
{
}

/// The best that is available is found among all hardware encoders, each of which is tried once; one
/// that is asked for is tried first, and no other hardware encoder is.
pub proof fn law_what_is_asked_for_is_tried(codec: HwCodec)
    ensures
        candidates_of(EncoderPref::Auto).contains(Some(codec)),
        candidates_of(EncoderPref::Auto).no_duplicates(),
        candidates_of(EncoderPref::Specific(codec))[0] == Some(codec),
        forall|other: HwCodec|
            #[trigger] candidates_of(EncoderPref::Specific(codec)).contains(Some(other)) ==> other
                == codec,
        !candidates_of(EncoderPref::Software).contains(Some(codec)),
{
    let all = candidates_of(EncoderPref::Auto);
    match codec {
        HwCodec::Nvenc => assert(all[0] == Some(codec)),
        HwCodec::Amf => assert(all[1] == Some(codec)),
        HwCodec::Qsv => assert(all[2] == Some(codec)),
    }
}

/// A hardware encoder is found under the name that the command line gives it, after `h264_`; and the
/// command line names it.
pub proof fn law_names_agree(s: Seq<char>)
    ensures
        codec_of(s) matches Some(codec) ==> codec.name() == "h264_"@ + s,
        codec_of(s) matches Some(codec) ==> pref_of(s) == Some(EncoderPref::Specific(codec)),
        pref_of(s) matches Some(EncoderPref::Specific(codec)) ==> codec_of(s) == Some(codec),
{
    reveal_strlit("h264_");
    reveal_strlit("nvenc");
    reveal_strlit("amf");
    reveal_strlit("qsv");
    reveal_strlit("h264_nvenc");
    reveal_strlit("h264_amf");
    reveal_strlit("h264_qsv");
    reveal_strlit("auto");
    reveal_strlit("software");
    if let Some(codec) = codec_of(s) {
        assert(codec.name() =~= "h264_"@ + s);
        assert(s.len() != 4 && s.len() != 8);
    }
}

} // verus!
