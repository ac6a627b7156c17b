//! Translation of an absolute Windows-style source path into the
//! archive-relative destination path: the volume designator `X:` and the root
//! separator are stripped and the path is re-rooted under a single-character
//! directory named after the drive letter, so that archives built from
//! several volumes cannot collide and every entry can be restored to its
//! absolute location.

use vstd::prelude::*;

use crate::paths::COLON;
use crate::paths::SEP;

verus! {

/// A path whose first component is not a single-letter volume designator
/// cannot be translated.
#[derive(Clone, Copy, PartialEq, Eq, Structural, Debug)]
pub enum TranslateError {
    UnsupportedPathKind,
}

/// A single ASCII letter, fit to designate a disk volume.
pub open spec fn is_drive_letter(b: u8) -> bool {
    (65 <= b && b <= 90) || (97 <= b && b <= 122)
}

/// The path can be translated: it starts with a single-letter volume
/// designator and the root separator, as in `C:\`.
pub open spec fn translatable(p: Seq<u8>) -> bool {
    p.len() >= 3 && is_drive_letter(p[0]) && p[1] == COLON && p[2] == SEP
}

/// The destination path of a translatable source path: the drive letter as a
/// top-level directory, followed by every remaining component unchanged.
/// `E:\Saves\Game1` becomes `E\Saves\Game1`; the bare volume root `C:\`
/// becomes `C`.
pub open spec fn dest_spec(p: Seq<u8>) -> Seq<u8> {
    if p.len() == 3 {
        seq![p[0]]
    } else {
        seq![p[0]] + p.skip(2)
    }
}

/// The absolute path a destination path stands for: the leading drive-letter
/// directory is turned back into the volume designator and root separator.
pub open spec fn restore_spec(d: Seq<u8>) -> Seq<u8> {
    if d.len() <= 1 {
        seq![d[0], COLON, SEP]
    } else {
        seq![d[0], COLON, SEP] + d.skip(2)
    }
}

/// Translation round-trips: re-prepending the volume designator and the root
/// separator to the destination path reconstructs the source path exactly.
pub proof fn lemma_translation_round_trip(p: Seq<u8>)
    requires
        translatable(p),
    ensures
        restore_spec(dest_spec(p)) == p,
{
    let d = dest_spec(p);
    if p.len() == 3 {
        assert(restore_spec(d) =~= p);
    } else {
        assert(d.len() == p.len() - 1);
        assert(restore_spec(d) =~= p) by {
            assert forall|i: int| 0 <= i < p.len() implies #[trigger] restore_spec(d)[i]
                == p[i] by {
                if i >= 3 {
                    assert(d.skip(2)[i - 3] == d[i - 1]);
                    assert(d[i - 1] == p.skip(2)[i - 2]);
                }
            }
        }
    }
}

/// Translates an absolute source path into its archive-relative destination
/// path. Returns `UnsupportedPathKind` exactly when the path does not start
/// with a single-letter volume designator and the root separator: paths with
/// fewer components, relative paths and UNC paths are all unsupported.
pub fn get_dest(src: &Vec<u8>) -> (r: Result<Vec<u8>, TranslateError>)
    ensures
        (r is Ok) == translatable(src@),
        r matches Ok(d) ==> d@ == dest_spec(src@),
        r matches Err(e) ==> e == TranslateError::UnsupportedPathKind,
{
    if src.len() < 3 {
        return Err(TranslateError::UnsupportedPathKind);
    }
    let b0 = src[0];
    let letter = (b0 >= 65 && b0 <= 90) || (b0 >= 97 && b0 <= 122);
    if !letter || src[1] != COLON || src[2] != SEP {
        return Err(TranslateError::UnsupportedPathKind);
    }
    let mut d: Vec<u8> = Vec::new();
    d.push(b0);
    if src.len() == 3 {
        proof {
            assert(d@ =~= dest_spec(src@));
        }
        return Ok(d);
    }
    let mut i: usize = 2;
    while i < src.len()
        invariant
            2 <= i <= src@.len(),
            3 < src@.len(),
            d@ == seq![src@[0]] + src@.skip(2).take(i - 2),
        decreases src@.len() - i,
    {
        d.push(src[i]);
        proof {
            assert(d@ =~= seq![src@[0]] + src@.skip(2).take(i + 1 - 2));
        }
        i = i + 1;
    }
    proof {
        assert(src@.skip(2).take(src@.len() - 2) =~= src@.skip(2));
        assert(d@ == dest_spec(src@));
    }
    Ok(d)
}

} // verus!
