//! ISO-8601 framing of the durations in the configuration.
//!
//! A duration is written as `PT<seconds>S`. The framing is handled here; the
//! seconds between the two markers are a decimal number whose conversion to
//! and from a floating-point value is done by the caller.
use vstd::prelude::*;
use vstd::string::*;

verus! {

/// The text `PT<seconds>S`.
pub open spec fn iso_duration_text(seconds: Seq<char>) -> Seq<char> {
    seq!['P', 'T'] + seconds + seq!['S']
}

/// Whether `s` starts with `PT` and ends with `S`.
pub open spec fn is_iso_duration_frame(s: Seq<char>) -> bool {
    &&& s.len() >= 2
    &&& s[0] == 'P'
    &&& s[1] == 'T'
    &&& s.last() == 'S'
}

/// The seconds text between `PT` and the final `S`.
pub open spec fn iso_duration_seconds(s: Seq<char>) -> Seq<char> {
    s.subrange(2, s.len() - 1)
}

/// A duration text that is not of the form `PT<seconds>S`.
#[derive(Debug, Clone)]
pub struct DurationFormatError {
    /// The text that was refused.
    pub input: String,
}

impl DurationFormatError {
    /// Human-readable description of the error.
    pub fn message(&self) -> (m: String)
        ensures
            m@ == "Invalid duration format: "@ + self.input@,
    {
        let mut m = String::from_str("Invalid duration format: ");
        m.append(self.input.as_str());
        m
    }
}

/// Frame a seconds text as an ISO-8601 duration: `PT<seconds>S`.
pub fn serialize(seconds_text: &str) -> (r: String)
    ensures
        r@ == iso_duration_text(seconds_text@),
        r@.len() == seconds_text@.len() + 3,
        r@[0] == 'P' && r@[1] == 'T' && r@[r@.len() - 1] == 'S',
        forall|i: int| 0 <= i < seconds_text@.len() ==> r@[i + 2] == #[trigger] seconds_text@[i],
{
    let mut r = String::from_str("PT");
    r.append(seconds_text);
    r.append("S");
    proof {
        reveal_strlit("PT");
        reveal_strlit("S");
        assert(r@ =~= iso_duration_text(seconds_text@));
        lemma_duration_text_layout(seconds_text@);
    }
    r
}

/// Take the seconds text out of an ISO-8601 duration `PT<seconds>S`.
/// Any other text is refused.
pub fn deserialize(text: &str) -> (r: Result<String, DurationFormatError>)
    ensures
        match r {
            Ok(seconds) => is_iso_duration_frame(text@) && seconds@ == iso_duration_seconds(text@),
            Err(e) => !is_iso_duration_frame(text@) && e.input@ == text@,
        },
        match r {
            Ok(seconds) => {
                &&& text@.len() == seconds@.len() + 3
                &&& text@[0] == 'P' && text@[1] == 'T' && text@[text@.len() - 1] == 'S'
                &&& forall|i: int| 0 <= i < seconds@.len() ==> #[trigger] seconds@[i] == text@[i + 2]
            },
            Err(_) => !(text@.len() >= 3 && text@[0] == 'P' && text@[1] == 'T' && text@[text@.len() - 1]
                == 'S'),
        },
{
    proof {
        lemma_frame_characterization(text@);
        if is_iso_duration_frame(text@) {
            lemma_seconds_between_markers(text@);
        }
    }
    let len = text.unicode_len();
    if len >= 2 && text.get_char(0) == 'P' && text.get_char(1) == 'T' && text.get_char(len - 1)
        == 'S' {
        let seconds = text.substring_char(2, len - 1);
        Ok(String::from_str(seconds))
    } else {
        Err(DurationFormatError { input: String::from_str(text) })
    }
}

/// Framing a seconds text and taking it out again gives the text back.
pub proof fn lemma_duration_text_roundtrip(seconds: Seq<char>)
    ensures
        is_iso_duration_frame(iso_duration_text(seconds)),
        iso_duration_seconds(iso_duration_text(seconds)) == seconds,
{
    let t = iso_duration_text(seconds);
    assert(t.len() == seconds.len() + 3);
    assert(t[0] == 'P');
    assert(t[1] == 'T');
    assert(t.last() == 'S');
    assert(iso_duration_seconds(t) =~= seconds);
}

/// A text is framed exactly when it has at least three characters, starts
/// with `PT` and ends with `S`.
pub proof fn lemma_frame_characterization(s: Seq<char>)
    ensures
        is_iso_duration_frame(s) <==> (s.len() >= 3 && s[0] == 'P' && s[1] == 'T' && s[s.len() - 1]
            == 'S'),
{
}

/// The seconds of a framed text are its characters between the leading `PT`
/// and the final `S`, unchanged and in order.
pub proof fn lemma_seconds_between_markers(s: Seq<char>)
    requires
        is_iso_duration_frame(s),
    ensures
        iso_duration_seconds(s).len() == s.len() - 3,
        forall|i: int| 0 <= i < s.len() - 3 ==> #[trigger] iso_duration_seconds(s)[i] == s[i + 2],
{
    lemma_frame_characterization(s);
}

/// The framed text is `P`, `T`, the seconds text unchanged, then `S`.
pub proof fn lemma_duration_text_layout(t: Seq<char>)
    ensures
        iso_duration_text(t).len() == t.len() + 3,
        iso_duration_text(t)[0] == 'P',
        iso_duration_text(t)[1] == 'T',
        iso_duration_text(t)[t.len() as int + 2] == 'S',
        forall|i: int| 0 <= i < t.len() ==> #[trigger] iso_duration_text(t)[i + 2] == t[i],
{
    let f = iso_duration_text(t);
    assert forall|i: int| 0 <= i < t.len() implies #[trigger] f[i + 2] == t[i] by {
        assert(f[i + 2] == (seq!['P', 'T'] + t)[i + 2]);
    }
    assert(f[t.len() as int + 2] == 'S');
}

} // verus!
