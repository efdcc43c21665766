//! What the CUDA tools print, read into versions.
use vstd::prelude::*;

use crate::paths::{join, join_path};
use crate::snapshot::CudaInfo;
use crate::text::{
    chars_of, find_class, first_in, first_word, first_word_of, second_piece, second_piece_of, slice,
    string_of, trim, trimmed, CharClass,
};

verus! {

/// The release of `nvcc --version` output: the text after `release ` up to the
/// next `,` or space, trimmed.
pub open spec fn spec_parse_release(text: Seq<char>) -> Option<Seq<char>> {
    match second_piece(text, "release "@) {
        Some(p) => Some(trim(p.take(first_in(p, CharClass::Either(',', ' ')) as int))),
        None => None,
    }
}

/// The first word after `label` in `text`.
pub open spec fn word_after(text: Seq<char>, label: Seq<char>) -> Option<Seq<char>> {
    match second_piece(text, label) {
        Some(p) => first_word(p),
        None => None,
    }
}

pub fn parse_release(text: &str) -> (r: Option<String>)
    ensures
        r matches Some(v) ==> spec_parse_release(text@) == Some(v@),
        r is None ==> spec_parse_release(text@) is None,
{
    let t = chars_of(text);
    let pat = chars_of("release ");
    proof {
        reveal_strlit("release ");
    }
    match second_piece_of(&t, &pat) {
        None => None,
        Some(p) => {
            let end = find_class(&p, 0, CharClass::Either(',', ' '));
            assert(p@.skip(0) =~= p@);
            let head = slice(&p, 0, end);
            assert(head@ =~= p@.take(end as int));
            Some(string_of(&trimmed(&head)))
        },
    }
}

fn word_after_label(text: &str, label: &str) -> (r: Option<String>)
    requires
        label@.len() > 0,
    ensures
        r matches Some(v) ==> word_after(text@, label@) == Some(v@),
        r is None ==> word_after(text@, label@) is None,
{
    let t = chars_of(text);
    let pat = chars_of(label);
    match second_piece_of(&t, &pat) {
        None => None,
        Some(p) => match first_word_of(&p) {
            Some(w) => Some(string_of(&w)),
            None => None,
        },
    }
}

/// The CUDA version that the driver supports, from `nvidia-smi` output.
pub fn parse_driver_cuda(text: &str) -> (r: Option<String>)
    ensures
        r matches Some(v) ==> word_after(text@, "CUDA Version: "@) == Some(v@),
        r is None ==> word_after(text@, "CUDA Version: "@) is None,
{
    proof {
        reveal_strlit("CUDA Version: ");
    }
    word_after_label(text, "CUDA Version: ")
}

/// The driver version, from `nvidia-smi` output.
pub fn parse_driver_version(text: &str) -> (r: Option<String>)
    ensures
        r matches Some(v) ==> word_after(text@, "Driver Version: "@) == Some(v@),
        r is None ==> word_after(text@, "Driver Version: "@) is None,
{
    proof {
        reveal_strlit("Driver Version: ");
    }
    word_after_label(text, "Driver Version: ")
}

/// The CUDA installation: `CUDA_HOME` (else `CUDA_PATH`) as its home; the
/// `nvcc` on `PATH`, else `bin/nvcc` under the home where that is a file
/// (`home_nvcc_is_file`); the release that `nvcc --version` printed
/// (`nvcc_output`); and the driver's versions from what `nvidia-smi` printed.
pub fn cuda_info(
    cuda_home_var: Option<String>,
    cuda_path_var: Option<String>,
    nvcc_on_path: Option<String>,
    home_nvcc_is_file: bool,
    nvcc_output: Option<String>,
    smi_output: Option<String>,
) -> (r: CudaInfo)
    ensures
        r.cuda_home == match cuda_home_var {
            Some(h) => Some(h),
            None => cuda_path_var,
        },
        r.nvcc_path.deep_view() == match nvcc_on_path {
            Some(n) => Some(n@),
            None => match r.cuda_home {
                Some(h) => if home_nvcc_is_file {
                    Some(join(h@, "bin/nvcc"@))
                } else {
                    None
                },
                None => None,
            },
        },
        r.nvcc_version.deep_view() == match nvcc_output {
            Some(t) => spec_parse_release(t@),
            None => None,
        },
        r.driver_version.deep_view() == match smi_output {
            Some(t) => word_after(t@, "Driver Version: "@),
            None => None,
        },
        r.driver_cuda.deep_view() == match smi_output {
            Some(t) => word_after(t@, "CUDA Version: "@),
            None => None,
        },
{
    let cuda_home = match cuda_home_var {
        Some(h) => Some(h),
        None => cuda_path_var,
    };
    let nvcc_path = match nvcc_on_path {
        Some(n) => Some(n),
        None => match &cuda_home {
            Some(h) => if home_nvcc_is_file {
                Some(join_path(h.as_str(), "bin/nvcc"))
            } else {
                None
            },
            None => None,
        },
    };
    let nvcc_version = match &nvcc_output {
        Some(t) => parse_release(t.as_str()),
        None => None,
    };
    let (driver_version, driver_cuda) = match &smi_output {
        Some(t) => (parse_driver_version(t.as_str()), parse_driver_cuda(t.as_str())),
        None => (None, None),
    };
    CudaInfo { cuda_home, nvcc_path, nvcc_version, driver_version, driver_cuda }
}

} // verus!
