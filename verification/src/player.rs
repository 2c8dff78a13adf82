//! Which kind of in-app playback a content type gets, and how durations
//! read.
use crate::text::{
    chars_of, decimal, equals, lowercase, lowercase_chars, padded, push_char, push_decimal,
    push_two_digits, starts_with,
};
use vstd::prelude::*;

verus! {

/// What kind of playback a content type gets.
#[derive(Debug, Clone, Copy, PartialEq, Eq, Structural)]
pub enum Playback {
    Audio,
    Animation,
    Image,
    /// MP4-family container, decoded in-app.
    Video,
    /// A container this client cannot demux: poster only.
    VideoUnsupported,
    Other,
}

/// The playback for a content type, compared without regard to ASCII case.
pub open spec fn playback_of(content_type: Seq<char>) -> Playback {
    let ct = lowercase(content_type);
    if "audio/"@.is_prefix_of(ct) || ct == "application/ogg"@ {
        Playback::Audio
    } else if ct == "image/gif"@ || ct == "image/webp"@ {
        Playback::Animation
    } else if "image/"@.is_prefix_of(ct) {
        Playback::Image
    } else if ct == "video/mp4"@ || ct == "video/quicktime"@ || ct == "video/x-m4v"@ {
        Playback::Video
    } else if "video/"@.is_prefix_of(ct) {
        Playback::VideoUnsupported
    } else {
        Playback::Other
    }
}

pub fn playback_for(content_type: &str) -> (p: Playback)
    ensures
        p == playback_of(content_type@),
{
    let ct = lowercase_chars(content_type);
    if starts_with(&ct, chars_of("audio/").as_slice()) || equals(
        &ct,
        chars_of("application/ogg").as_slice(),
    ) {
        Playback::Audio
    } else if equals(&ct, chars_of("image/gif").as_slice()) || equals(
        &ct,
        chars_of("image/webp").as_slice(),
    ) {
        Playback::Animation
    } else if starts_with(&ct, chars_of("image/").as_slice()) {
        Playback::Image
    } else if equals(&ct, chars_of("video/mp4").as_slice()) || equals(
        &ct,
        chars_of("video/quicktime").as_slice(),
    ) || equals(&ct, chars_of("video/x-m4v").as_slice()) {
        Playback::Video
    } else if starts_with(&ct, chars_of("video/").as_slice()) {
        Playback::VideoUnsupported
    } else {
        Playback::Other
    }
}

/// A duration of whole seconds as `m:ss`, or `h:mm:ss` from an hour on.
pub open spec fn duration_text(seconds: nat) -> Seq<char> {
    if seconds >= 3600 {
        decimal(seconds / 3600).push(':') + padded((seconds % 3600) / 60, 2).push(':') + padded(
            seconds % 60,
            2,
        )
    } else {
        decimal(seconds / 60).push(':') + padded(seconds % 60, 2)
    }
}

/// Formats a duration given in whole seconds.
pub fn format_duration(seconds: u64) -> (s: String)
    ensures
        s@ == duration_text(seconds as nat),
{
    let mut s = String::new();
    if seconds >= 3600 {
        push_decimal(&mut s, (seconds / 3600) as u128);
        push_char(&mut s, ':');
        push_two_digits(&mut s, (seconds % 3600) / 60);
        push_char(&mut s, ':');
        push_two_digits(&mut s, seconds % 60);
        assert(s@ =~= duration_text(seconds as nat));
    } else {
        push_decimal(&mut s, (seconds / 60) as u128);
        push_char(&mut s, ':');
        push_two_digits(&mut s, seconds % 60);
        assert(s@ =~= duration_text(seconds as nat));
    }
    s
}

} // verus!
