//! Recognising video files by their extension.

use vstd::prelude::*;
use vstd::utf8::encode_utf8;

verus! {

/// `s` ends with `suffix`.
pub open spec fn ends_with(s: Seq<u8>, suffix: Seq<u8>) -> bool {
    s.len() >= suffix.len() && s.subrange(s.len() - suffix.len(), s.len() as int) == suffix
}

/// A file name counts as a video when its UTF-8 bytes end in `.mkv` or `.mp4`.
pub open spec fn is_video_chars(name: Seq<char>) -> bool {
    ends_with(encode_utf8(name), encode_utf8(".mkv"@)) || ends_with(
        encode_utf8(name),
        encode_utf8(".mp4"@),
    )
}

fn has_suffix(s: &[u8], suffix: &[u8]) -> (r: bool)
    ensures
        r == ends_with(s@, suffix@),
{
    if s.len() < suffix.len() {
        return false;
    }
    let start = s.len() - suffix.len();
    let mut i: usize = 0;
    while i < suffix.len()
        invariant
            start as int + suffix@.len() == s@.len(),
            s@.len() == s.len(),
            0 <= i <= suffix@.len(),
            forall|k: int| 0 <= k < i ==> s@[start + k] == suffix@[k],
        decreases suffix@.len() - i,
    {
        if s[start + i] != suffix[i] {
            assert(s@.subrange(start as int, s@.len() as int)[i as int] != suffix@[i as int]);
            return false;
        }
        i = i + 1;
    }
    assert(s@.subrange(start as int, s@.len() as int) =~= suffix@);
    true
}

/// Whether `file_name` has one of the recognised video extensions.
pub fn is_video_file(file_name: &str) -> (r: bool)
    ensures
        r == is_video_chars(file_name@),
{
    has_suffix(file_name.as_bytes(), ".mkv".as_bytes()) || has_suffix(
        file_name.as_bytes(),
        ".mp4".as_bytes(),
    )
}

/// The names in `files` that are video files, in their original order.
pub fn filter_videos(files: &Vec<String>) -> (r: Vec<String>)
    ensures
        r@.map_values(|s: String| s@) == files@.map_values(|s: String| s@).filter(
            |n: Seq<char>| is_video_chars(n),
        ),
{
    let mut out: Vec<String> = Vec::new();
    let mut i: usize = 0;
    while i < files.len()
        invariant
            0 <= i <= files@.len(),
            out@.map_values(|s: String| s@) == files@.subrange(0, i as int).map_values(
                |s: String| s@,
            ).filter(|n: Seq<char>| is_video_chars(n)),
        decreases files@.len() - i,
    {
        let f = &files[i];
        let keep = is_video_file(f.as_str());
        let ghost before = out@.map_values(|s: String| s@);
        let ghost pre = files@.subrange(0, i as int).map_values(|s: String| s@);
        let ghost post = files@.subrange(0, i as int + 1).map_values(|s: String| s@);
        proof {
            assert(post =~= pre.push(f@));
            assert(post.drop_last() =~= pre);
            assert(post.last() == f@);
            reveal(Seq::filter);
            assert(post.filter(|n: Seq<char>| is_video_chars(n)) == if is_video_chars(f@) {
                pre.filter(|n: Seq<char>| is_video_chars(n)).push(f@)
            } else {
                pre.filter(|n: Seq<char>| is_video_chars(n))
            });
        }
        if keep {
            out.push(f.clone());
            assert(out@.map_values(|s: String| s@) =~= before.push(f@));
        } else {
            assert(out@.map_values(|s: String| s@) =~= before);
        }
        i = i + 1;
    }
    assert(files@.subrange(0, files@.len() as int) =~= files@);
    out
}

} // verus!
