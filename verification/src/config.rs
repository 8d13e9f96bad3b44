use vstd::prelude::*;

verus! {

/// Options for fetching and preparing a source video.
pub struct DownloadArgs {
    pub url: Option<String>,
    pub resolution: Option<String>,
    pub fps: Option<u32>,
    pub project_name: Option<String>,
}

/// Options for converting a prepared video into a rectangle container.
pub struct ConvertArgs {
    pub project_name: Option<String>,
    pub resolutions: Option<String>,
    pub use_gpu: bool,
}

/// Options for visually replaying a generated container.
pub struct DebugArgs {
    pub project_name: Option<String>,
    pub file_name: Option<String>,
}

/// Options for packaging containers into distributable players.
pub struct BuildArgs {
    pub project_name: Option<String>,
    pub resolutions: Option<String>,
    pub build_all: bool,
}

/// Options for launching a packaged player under supervision.
pub struct RunArgs {
    pub target: Option<String>,
}

/// The frame size a resolution name stands for, or nothing for an unknown
/// name. The four known names and their sizes, all 16:9.
pub open spec fn resolution_dims_spec(name: Seq<u8>) -> Option<(u32, u32)> {
    if name == seq![55u8, 50u8, 48u8, 112u8] {
        Some((1280u32, 720u32))
    } else if name == seq![49u8, 48u8, 56u8, 48u8, 112u8] {
        Some((1920u32, 1080u32))
    } else if name == seq![49u8, 52u8, 52u8, 48u8, 112u8] {
        Some((2560u32, 1440u32))
    } else if name == seq![50u8, 49u8, 54u8, 48u8, 112u8] {
        Some((3840u32, 2160u32))
    } else {
        None
    }
}

/// Whether `name` is the four given bytes.
fn is_name4(name: &[u8], c0: u8, c1: u8, c2: u8, c3: u8) -> (r: bool)
    ensures
        r == (name@ == seq![c0, c1, c2, c3]),
{
    if name.len() == 4 && name[0] == c0 && name[1] == c1 && name[2] == c2 && name[3] == c3 {
        proof {
            assert(name@ =~= seq![c0, c1, c2, c3]);
        }
        true
    } else {
        proof {
            if name@ == seq![c0, c1, c2, c3] {
                assert(name@.len() == 4);
                assert(name@[0] == c0 && name@[1] == c1 && name@[2] == c2 && name@[3] == c3);
            }
        }
        false
    }
}

/// Whether `name` is the five given bytes.
fn is_name5(name: &[u8], c0: u8, c1: u8, c2: u8, c3: u8, c4: u8) -> (r: bool)
    ensures
        r == (name@ == seq![c0, c1, c2, c3, c4]),
{
    if name.len() == 5 && name[0] == c0 && name[1] == c1 && name[2] == c2 && name[3] == c3
        && name[4] == c4 {
        proof {
            assert(name@ =~= seq![c0, c1, c2, c3, c4]);
        }
        true
    } else {
        proof {
            if name@ == seq![c0, c1, c2, c3, c4] {
                assert(name@.len() == 5);
                assert(name@[0] == c0 && name@[1] == c1 && name@[2] == c2 && name@[3] == c3
                    && name@[4] == c4);
            }
        }
        false
    }
}

/// Maps a resolution name, as bytes, to its frame size: the four names the
/// tooling understands, each 16:9. Any other name is unknown.
pub fn resolution_dims(name: &[u8]) -> (r: Option<(u32, u32)>)
    ensures
        r == resolution_dims_spec(name@),
{
    if is_name4(name, 55u8, 50u8, 48u8, 112u8) {
        Some((1280, 720))
    } else if is_name5(name, 49u8, 48u8, 56u8, 48u8, 112u8) {
        Some((1920, 1080))
    } else if is_name5(name, 49u8, 52u8, 52u8, 48u8, 112u8) {
        Some((2560, 1440))
    } else if is_name5(name, 50u8, 49u8, 54u8, 48u8, 112u8) {
        Some((3840, 2160))
    } else {
        None
    }
}

/// A rational frame rate rounded to the nearest whole number, halves up.
pub open spec fn fps_round(num: int, den: int) -> int {
    (2 * num + den) / (2 * den)
}

/// Rounds the frame rate `num / den` (as probing tools report it) to the
/// nearest 16-bit whole number, halves up, saturating at the largest
/// representable rate.
pub fn fps_of_rational(num: u64, den: u64) -> (r: u16)
    requires
        den >= 1,
    ensures
        fps_round(num as int, den as int) <= 65535 ==> r as int == fps_round(
            num as int,
            den as int,
        ),
        fps_round(num as int, den as int) > 65535 ==> r == 65535,
{
    let q = (2 * (num as u128) + (den as u128)) / (2 * (den as u128));
    proof {
        assert(q as int == fps_round(num as int, den as int));
        assert(fps_round(num as int, den as int) >= 0) by (nonlinear_arith)
            requires num >= 0, den >= 1;
    }
    if q > 65535 {
        65535
    } else {
        q as u16
    }
}

} // verus!
