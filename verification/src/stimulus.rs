//! The stimulus broadcast to every column: text alone, or text with image
//! parts that make it multimodal.
use vstd::prelude::*;

use crate::cli::{detail_result, parse_detail, ImageDetail};
use crate::text::copy_string;

verus! {

/// An image attached to a stimulus: its URL (an `https://` address or an
/// inline `data:` payload) and the resolution hint.
#[derive(Debug)]
pub struct ImageUrlRef {
    pub url: String,
    pub detail: ImageDetail,
}

/// A non-text part of a multimodal stimulus.
#[derive(Debug)]
pub enum StimulusPart {
    ImageUrl { image_url: ImageUrlRef },
}

/// The input broadcast to all columns.
#[derive(Debug)]
pub enum Stimulus {
    /// Text only.
    Text(String),
    /// Text plus image parts.
    Multimodal { text: String, parts: Vec<StimulusPart> },
}

/// The URL and hint of a part, as plain values.
pub open spec fn part_view(p: StimulusPart) -> (Seq<char>, ImageDetail) {
    match p {
        StimulusPart::ImageUrl { image_url } => (image_url.url@, image_url.detail),
    }
}

/// The text of a stimulus.
pub open spec fn stimulus_text(s: Stimulus) -> Seq<char> {
    match s {
        Stimulus::Text(t) => t@,
        Stimulus::Multimodal { text, .. } => text@,
    }
}

/// The image parts of a stimulus, as plain values (none for text).
pub open spec fn stimulus_parts(s: Stimulus) -> Seq<(Seq<char>, ImageDetail)> {
    match s {
        Stimulus::Text(_) => Seq::empty(),
        Stimulus::Multimodal { parts, .. } => parts@.map_values(|p: StimulusPart| part_view(p)),
    }
}

impl Stimulus {
    /// A text-only stimulus.
    pub fn text(s: String) -> (r: Self)
        ensures
            r is Text,
            stimulus_text(r) == s@,
    {
        Stimulus::Text(s)
    }

    /// The stimulus text (for a multimodal stimulus, its text part).
    pub fn text_str(&self) -> (t: &str)
        ensures
            t@ == stimulus_text(*self),
    {
        match self {
            Stimulus::Text(t) => t.as_str(),
            Stimulus::Multimodal { text, .. } => text.as_str(),
        }
    }

    /// Whether the stimulus carries image parts.
    pub fn is_multimodal(&self) -> (r: bool)
        ensures
            r == (*self is Multimodal),
    {
        match self {
            Stimulus::Text(_) => false,
            Stimulus::Multimodal { .. } => true,
        }
    }
}

/// The stimulus of a run: the input text alone when no image URL is given;
/// otherwise the text with one image part per URL, in order, each carrying
/// the parsed resolution hint (a hint that does not parse is refused with
/// its message).
pub open spec fn stimulus_result(
    input: Seq<char>,
    urls: Seq<Seq<char>>,
    detail: Seq<char>,
) -> Result<(Seq<char>, Seq<(Seq<char>, ImageDetail)>), Seq<char>> {
    if urls.len() == 0 {
        Ok((input, Seq::empty()))
    } else {
        match detail_result(detail) {
            Ok(d) => Ok((input, urls.map_values(|u: Seq<char>| (u, d)))),
            Err(m) => Err(m),
        }
    }
}

/// Build the stimulus of a run from the input text, the image URLs and the
/// resolution hint.
pub fn stimulus_from(input: String, image_urls: &Vec<String>, detail: &str) -> (r: Result<Stimulus, String>)
    ensures
        match r {
            Ok(s) => (image_urls@.len() == 0 <==> s is Text)
                && stimulus_result(input@, image_urls@.map_values(|u: String| u@), detail@)
                    == Ok::<(Seq<char>, Seq<(Seq<char>, ImageDetail)>), Seq<char>>((stimulus_text(s), stimulus_parts(s))),
            Err(m) => stimulus_result(input@, image_urls@.map_values(|u: String| u@), detail@) == Err::<
                (Seq<char>, Seq<(Seq<char>, ImageDetail)>),
                Seq<char>,
            >(m@),
        },
{
    let ghost uv = image_urls@.map_values(|u: String| u@);
    if image_urls.len() == 0 {
        let s = Stimulus::Text(input);
        proof {
            assert(stimulus_parts(s) =~= Seq::<(Seq<char>, ImageDetail)>::empty());
        }
        return Ok(s);
    }
    let d = match parse_detail(detail) {
        Ok(d) => d,
        Err(m) => return Err(m),
    };
    let mut parts: Vec<StimulusPart> = Vec::new();
    let mut k: usize = 0;
    while k < image_urls.len()
        invariant
            0 <= k <= image_urls@.len(),
            uv == image_urls@.map_values(|u: String| u@),
            parts@.map_values(|p: StimulusPart| part_view(p)) =~= uv.map_values(|u: Seq<char>| (u, d)).take(k as int),
        decreases image_urls@.len() - k,
    {
        let url = copy_string(&image_urls[k]);
        let ghost before = parts@;
        let part = StimulusPart::ImageUrl { image_url: ImageUrlRef { url, detail: d } };
        assert(part_view(part) == (uv[k as int], d));
        parts.push(part);
        assert(parts@ == before.push(part));
        assert(parts@.map_values(|p: StimulusPart| part_view(p)) =~= before.map_values(|p: StimulusPart| part_view(p)).push(part_view(part)));
        k = k + 1;
        assert(parts@.map_values(|p: StimulusPart| part_view(p)) =~= uv.map_values(|u: Seq<char>| (u, d)).take(k as int));
    }
    let s = Stimulus::Multimodal { text: input, parts };
    proof {
        assert(uv.map_values(|u: Seq<char>| (u, d)).take(image_urls@.len() as int) =~= uv.map_values(|u: Seq<char>| (u, d)));
    }
    Ok(s)
}

} // verus!
