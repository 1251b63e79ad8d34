//! Classification of files by extension, which picks how a file is served.
use vstd::prelude::*;

verus! {

#[derive(Debug, Clone, Copy, PartialEq, Eq, Structural)]
pub enum FileType {
    Video,
    Music,
    Text,
    Other,
}

/// The extension of a path: the bytes after the last `.` of its last
/// segment, if that segment found a dot.
pub open spec fn extension_of(p: Seq<u8>) -> Option<Seq<u8>>
    decreases p.len(),
{
    if p.len() == 0 {
        None
    } else if p.last() == 46 {
        Some(Seq::<u8>::empty())
    } else if p.last() == 47 {
        None
    } else {
        match extension_of(p.drop_last()) {
            None => None,
            Some(e) => Some(e.push(p.last())),
        }
    }
}

/// ASCII lower case.
pub open spec fn lower(b: u8) -> u8 {
    if 65 <= b && b <= 90 {
        (b + 32) as u8
    } else {
        b
    }
}

pub open spec fn lowered(s: Seq<u8>) -> Seq<u8> {
    s.map_values(|b: u8| lower(b))
}

/// Video extensions: mp4, mkv, avi, mov, m4v, webm.
pub open spec fn is_video_extension(e: Seq<u8>) -> bool {
    e == seq![109u8, 112u8, 52u8] || e == seq![109u8, 107u8, 118u8] || e == seq![97u8, 118u8, 105u8]
        || e == seq![109u8, 111u8, 118u8] || e == seq![109u8, 52u8, 118u8] || e == seq![
        119u8,
        101u8,
        98u8,
        109u8,
    ]
}

/// Music extensions: mp3, wav, ogg, m4a, aac, flac, opus.
pub open spec fn is_music_extension(e: Seq<u8>) -> bool {
    e == seq![109u8, 112u8, 51u8] || e == seq![119u8, 97u8, 118u8] || e == seq![111u8, 103u8, 103u8]
        || e == seq![109u8, 52u8, 97u8] || e == seq![97u8, 97u8, 99u8] || e == seq![
        102u8,
        108u8,
        97u8,
        99u8,
    ] || e == seq![111u8, 112u8, 117u8, 115u8]
}

/// Text extensions: txt, srt, vtt, ass, log, csv, json.
pub open spec fn is_text_extension(e: Seq<u8>) -> bool {
    e == seq![116u8, 120u8, 116u8] || e == seq![115u8, 114u8, 116u8] || e == seq![118u8, 116u8, 116u8]
        || e == seq![97u8, 115u8, 115u8] || e == seq![108u8, 111u8, 103u8] || e == seq![
        99u8,
        115u8,
        118u8,
    ] || e == seq![106u8, 115u8, 111u8, 110u8]
}

/// The type of a file, from its extension in any letter case.
pub open spec fn file_type_of(p: Seq<u8>) -> FileType {
    match extension_of(p) {
        None => FileType::Other,
        Some(e) => {
            let l = lowered(e);
            if is_video_extension(l) {
                FileType::Video
            } else if is_music_extension(l) {
                FileType::Music
            } else if is_text_extension(l) {
                FileType::Text
            } else {
                FileType::Other
            }
        },
    }
}

fn is3(e: &Vec<u8>, a: u8, b: u8, c: u8) -> (r: bool)
    ensures
        r == (e@ == seq![a, b, c]),
{
    let r = e.len() == 3 && e[0] == a && e[1] == b && e[2] == c;
    proof {
        if r {
            assert(e@ =~= seq![a, b, c]);
        } else if e@ == seq![a, b, c] {
            assert(e@[0] == a && e@[1] == b && e@[2] == c);
        }
    }
    r
}

fn is4(e: &Vec<u8>, a: u8, b: u8, c: u8, d: u8) -> (r: bool)
    ensures
        r == (e@ == seq![a, b, c, d]),
{
    let r = e.len() == 4 && e[0] == a && e[1] == b && e[2] == c && e[3] == d;
    proof {
        if r {
            assert(e@ =~= seq![a, b, c, d]);
        } else if e@ == seq![a, b, c, d] {
            assert(e@[0] == a && e@[1] == b && e@[2] == c && e@[3] == d);
        }
    }
    r
}

fn lower_byte(b: u8) -> (r: u8)
    ensures
        r == lower(b),
{
    if 65 <= b && b <= 90 {
        b + 32
    } else {
        b
    }
}

/// The extension of a path, in lower case; `None` when its last segment found no dot.
pub fn lowered_extension(p: &[u8]) -> (r: Option<Vec<u8>>)
    ensures
        match r {
            None => extension_of(p@) is None,
            Some(e) => extension_of(p@) is Some && e@ == lowered(extension_of(p@)->Some_0),
        },
{
    let mut found: bool = false;
    let mut start: usize = 0;
    let mut i: usize = 0;
    assert(p@.subrange(0, 0) =~= Seq::<u8>::empty());
    while i < p.len()
        invariant
            i <= p@.len(),
            start <= i,
            extension_of(p@.subrange(0, i as int)) == (if found {
                Some(p@.subrange(start as int, i as int))
            } else {
                None::<Seq<u8>>
            }),
        decreases p@.len() - i,
    {
        let ghost q = p@.subrange(0, i + 1);
        assert(q.drop_last() =~= p@.subrange(0, i as int));
        assert(q.last() == p@[i as int]);
        if p[i] == 46 {
            found = true;
            start = i + 1;
            assert(p@.subrange(start as int, i + 1) =~= Seq::<u8>::empty());
        } else if p[i] == 47 {
            found = false;
        } else {
            assert(p@.subrange(start as int, i + 1) =~= p@.subrange(start as int, i as int).push(
                p@[i as int],
            ));
        }
        i = i + 1;
    }
    assert(p@.subrange(0, i as int) =~= p@);
    if !found {
        return None;
    }
    let mut e: Vec<u8> = Vec::new();
    let mut k: usize = start;
    while k < p.len()
        invariant
            start <= k <= p@.len(),
            e@ == lowered(p@.subrange(start as int, k as int)),
        decreases p@.len() - k,
    {
        e.push(lower_byte(p[k]));
        k = k + 1;
        assert(e@ =~= lowered(p@.subrange(start as int, k as int)));
    }
    Some(e)
}

/// Classifies a file by the extension of its path.
pub fn classify(p: &[u8]) -> (r: FileType)
    ensures
        r == file_type_of(p@),
{
    let e = match lowered_extension(p) {
        None => {
            return FileType::Other;
        },
        Some(e) => e,
    };
    if is3(&e, 109, 112, 52) || is3(&e, 109, 107, 118) || is3(&e, 97, 118, 105) || is3(
        &e,
        109,
        111,
        118,
    ) || is3(&e, 109, 52, 118) || is4(&e, 119, 101, 98, 109) {
        FileType::Video
    } else if is3(&e, 109, 112, 51) || is3(&e, 119, 97, 118) || is3(&e, 111, 103, 103) || is3(
        &e,
        109,
        52,
        97,
    ) || is3(&e, 97, 97, 99) || is4(&e, 102, 108, 97, 99) || is4(&e, 111, 112, 117, 115) {
        FileType::Music
    } else if is3(&e, 116, 120, 116) || is3(&e, 115, 114, 116) || is3(&e, 118, 116, 116) || is3(
        &e,
        97,
        115,
        115,
    ) || is3(&e, 108, 111, 103) || is3(&e, 99, 115, 118) || is4(&e, 106, 115, 111, 110) {
        FileType::Text
    } else {
        FileType::Other
    }
}

/// Whether a file of this type is served through byte ranges (video and music).
pub fn is_streamed(t: FileType) -> (r: bool)
    ensures
        r == (t == FileType::Video || t == FileType::Music),
{
    match t {
        FileType::Video | FileType::Music => true,
        _ => false,
    }
}

} // verus!
