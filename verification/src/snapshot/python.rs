//! What pip and PyTorch report about a Python environment.
use vstd::prelude::*;

use crate::paths::{path_eq, path_key};
use crate::snapshot::{views, PythonInfo};
use crate::text::{
    chars_of, ends_with, occurs_at, find_class, first_in, has_suffix, line_list, lines, rfind, rfind_sub,
    same, slice, string_of, trim, trimmed, word_list, words, CharClass,
};

verus! {

/// The pip version and the Python version of `pip --version` output
/// (`pip 25.1 from ... (python 3.12)`).
pub open spec fn spec_pip_version(output: Seq<char>) -> (Option<Seq<char>>, Option<Seq<char>>) {
    let ws = words(output);
    let version = if ws.len() > 0 && ws[0] == "pip"@ && ws.len() > 1 {
        Some(ws[1])
    } else {
        None
    };
    let python = match rfind_sub(output, "(python "@) {
        Some(i) => {
            let tail = output.skip(i + 8);
            if ends_with(tail, ")"@) {
                Some(tail.drop_last())
            } else {
                None
            }
        },
        None => None,
    };
    (version, python)
}

pub fn parse_pip_version(output: &str) -> (r: (Option<String>, Option<String>))
    ensures
        (r.0.deep_view(), r.1.deep_view()) == spec_pip_version(output@),
{
    proof {
        reveal_strlit("pip");
        reveal_strlit("(python ");
        reveal_strlit(")");
    }
    let text = chars_of(output);
    let ws = word_list(&text);
    let ghost wv = ws@.map_values(|p: Vec<char>| p@);
    let pip = chars_of("pip");
    let version = if ws.len() > 1 && same(&ws[0], &pip) {
        assert(wv[0] == ws@[0]@ && wv[1] == ws@[1]@);
        Some(string_of(&ws[1]))
    } else {
        assert(ws.len() > 0 ==> wv[0] == ws@[0]@);
        None
    };
    let marker = chars_of("(python ");
    let close = chars_of(")");
    let python = match rfind(&text, &marker) {
        Some(i) => {
            assert(occurs_at(text@, marker@, i as int));
            assert(marker@.len() == 8);
            let n = text.len();
            assert(i + 8 <= n);
            let tail = slice(&text, i + 8, n);
            assert(tail@ =~= text@.skip(i + 8));
            if has_suffix(&tail, &close) {
                let inner = slice(&tail, 0, tail.len() - 1);
                assert(inner@ =~= tail@.drop_last());
                Some(string_of(&inner))
            } else {
                None
            }
        },
        None => None,
    };
    (version, python)
}

/// A quoted literal with its quotes removed: one leading and one trailing `'` or `"`.
pub open spec fn unquote(v: Seq<char>) -> Option<Seq<char>> {
    if v.len() > 0 && (v[0] == '\'' || v[0] == '"') {
        let w = v.drop_first();
        if w.len() > 0 && (w.last() == '\'' || w.last() == '"') {
            Some(w.drop_last())
        } else {
            None
        }
    } else {
        None
    }
}

/// A `name = value` line of `torch/version.py`: the name (before any `:` type
/// annotation) and the literal value (`None` stays absent).
pub open spec fn assignment(line: Seq<char>) -> Option<(Seq<char>, Option<Seq<char>>)> {
    let i = first_in(line, CharClass::Is('='));
    if i >= line.len() {
        None
    } else {
        let left = line.take(i as int);
        let value = trim(line.skip(i + 1 as int));
        let name = trim(left.take(first_in(left, CharClass::Is(':')) as int));
        let literal = if value == "None"@ {
            None
        } else {
            unquote(value)
        };
        Some((name, literal))
    }
}

/// The `__version__` and `cuda` values after the given lines; the last assignment wins.
pub open spec fn torch_scan(ls: Seq<Seq<char>>) -> (Option<Seq<char>>, Option<Seq<char>>)
    decreases ls.len(),
{
    if ls.len() == 0 {
        (None, None)
    } else {
        let prev = torch_scan(ls.drop_last());
        match assignment(ls.last()) {
            Some((name, literal)) => if name == "__version__"@ {
                (literal, prev.1)
            } else if name == "cuda"@ {
                (prev.0, literal)
            } else {
                prev
            },
            None => prev,
        }
    }
}

fn unquoted(v: &Vec<char>) -> (r: Option<Vec<char>>)
    ensures
        r matches Some(w) ==> unquote(v@) == Some(w@),
        r is None ==> unquote(v@) is None,
{
    if v.len() > 0 && (v[0] == '\'' || v[0] == '"') {
        let w = slice(v, 1, v.len());
        assert(w@ =~= v@.drop_first());
        if w.len() > 0 && (w[w.len() - 1] == '\'' || w[w.len() - 1] == '"') {
            let inner = slice(&w, 0, w.len() - 1);
            assert(inner@ =~= w@.drop_last());
            Some(inner)
        } else {
            None
        }
    } else {
        None
    }
}

fn assignment_of(line: &Vec<char>) -> (r: Option<(Vec<char>, Option<Vec<char>>)>)
    ensures
        r matches Some(p) ==> assignment(line@) == Some((p.0@, p.1.deep_view())),
        r is None ==> assignment(line@) is None,
{
    proof {
        reveal_strlit("None");
    }
    let i = find_class(line, 0, CharClass::Is('='));
    assert(line@.skip(0) =~= line@);
    if i >= line.len() {
        return None;
    }
    let left = slice(line, 0, i);
    assert(left@ =~= line@.take(i as int));
    let right = slice(line, i + 1, line.len());
    assert(right@ =~= line@.skip(i + 1));
    let value = trimmed(&right);
    let colon = find_class(&left, 0, CharClass::Is(':'));
    assert(left@.skip(0) =~= left@);
    let head = slice(&left, 0, colon);
    assert(head@ =~= left@.take(colon as int));
    let name = trimmed(&head);
    let none = chars_of("None");
    let literal = if same(&value, &none) {
        None
    } else {
        unquoted(&value)
    };
    Some((name, literal))
}

/// The PyTorch version and CUDA version written in a generated `torch/version.py`.
pub fn parse_torch_version_file(contents: &str) -> (r: (Option<String>, Option<String>))
    ensures
        (r.0.deep_view(), r.1.deep_view()) == torch_scan(lines(contents@)),
{
    proof {
        reveal_strlit("__version__");
        reveal_strlit("cuda");
    }
    let text = chars_of(contents);
    let ls = line_list(&text);
    let ghost lv = ls@.map_values(|p: Vec<char>| p@);
    let version_name = chars_of("__version__");
    let cuda_name = chars_of("cuda");
    let mut version: Option<Vec<char>> = None;
    let mut cuda: Option<Vec<char>> = None;
    let mut i: usize = 0;
    while i < ls.len()
        invariant
            i <= ls.len(),
            lv == ls@.map_values(|p: Vec<char>| p@),
            version_name@ == "__version__"@,
            cuda_name@ == "cuda"@,
            (version.deep_view(), cuda.deep_view()) == torch_scan(lv.take(i as int)),
        decreases ls.len() - i,
    {
        assert(lv.take(i + 1).drop_last() =~= lv.take(i as int));
        assert(lv.take(i + 1).last() == ls@[i as int]@);
        match assignment_of(&ls[i]) {
            Some((name, literal)) => {
                if same(&name, &version_name) {
                    version = literal;
                } else if same(&name, &cuda_name) {
                    cuda = literal;
                }
            },
            None => {},
        }
        i += 1;
    }
    assert(lv.take(ls.len() as int) =~= lv);
    let v = match version {
        Some(v) => Some(string_of(&v)),
        None => None,
    };
    let c = match cuda {
        Some(c) => Some(string_of(&c)),
        None => None,
    };
    (v, c)
}

/// The PyTorch version and CUDA version of an interpreter: those of its
/// `torch/version.py` where that file could be read, the distribution's
/// version otherwise.
pub open spec fn spec_torch_values(
    version_file: Option<Seq<char>>,
    distribution_version: Option<Seq<char>>,
) -> (Option<Seq<char>>, Option<Seq<char>>) {
    let from_file = match version_file {
        Some(text) => torch_scan(lines(text)),
        None => (None, None),
    };
    (
        match from_file.0 {
            Some(v) => Some(v),
            None => distribution_version,
        },
        from_file.1,
    )
}

/// `version_file` is the text of `torch/version.py`, where it was read.
pub fn torch_values(version_file: Option<&str>, distribution_version: Option<String>) -> (r: (
    Option<String>,
    Option<String>,
))
    ensures
        (r.0.deep_view(), r.1.deep_view()) == spec_torch_values(
            match version_file {
                Some(t) => Some(t@),
                None => None,
            },
            distribution_version.deep_view(),
        ),
{
    let from_file = match version_file {
        Some(text) => parse_torch_version_file(text),
        None => (None, None),
    };
    let (version, cuda) = from_file;
    let version = match version {
        Some(v) => Some(v),
        None => distribution_version,
    };
    (version, cuda)
}

/// Two lists of executables one after the other, a path that repeats the one
/// just before it left out (`Vec::dedup`).
pub open spec fn joined_candidates(all: Seq<String>) -> Seq<Seq<char>>
    decreases all.len(),
{
    if all.len() == 0 {
        seq![]
    } else {
        let prev = joined_candidates(all.drop_last());
        if all.len() >= 2 && path_key(all[all.len() - 2]@) == path_key(all.last()@) {
            prev
        } else {
            prev.push(all.last()@)
        }
    }
}

pub fn merge_candidates(first: Vec<String>, second: Vec<String>) -> (r: Vec<String>)
    ensures
        views(r@) == joined_candidates(first@ + second@),
{
    let mut all = first;
    let mut more = second;
    let ghost both = all@ + more@;
    all.append(&mut more);
    assert(all@ =~= both);
    let mut r: Vec<String> = Vec::new();
    let mut i: usize = 0;
    while i < all.len()
        invariant
            i <= all.len(),
            all@ == both,
            views(r@) == joined_candidates(both.take(i as int)),
        decreases all.len() - i,
    {
        let ghost t = both.take(i + 1);
        assert(t.drop_last() =~= both.take(i as int));
        assert(t.last() == both[i as int]);
        if i >= 1 {
            assert(t[t.len() - 2] == both[i - 1]);
        }
        if i >= 1 && path_eq(all[i - 1].as_str(), all[i].as_str()) {
        } else {
            let ghost before = views(r@);
            let c = all[i].clone();
            r.push(c);
            assert(views(r@) =~= before.push(c@));
        }
        i += 1;
    }
    assert(both.take(all.len() as int) =~= both);
    r
}

/// What the interpreter reported about itself: where it runs from, its
/// version, its prefixes, the installed PyTorch's version and where its
/// `version.py` is.
#[derive(Clone, Debug)]
pub struct PythonProbe {
    pub executable: String,
    pub version: String,
    pub prefix: String,
    pub base_prefix: String,
    pub torch_distribution_version: Option<String>,
    pub torch_version_file: Option<String>,
}

/// The record of the Python environment from what was found: the active
/// virtual and Conda environments, the interpreters and pips on `PATH`
/// (the first of each is the one used), what the first interpreter reported
/// (`probe`), the text of PyTorch's `version.py` (where it was read), and what
/// `pip --version` and `python -m pip --version` printed. Without an
/// interpreter only the environments are recorded.
pub fn python_info(
    virtual_env: Option<String>,
    conda_prefix: Option<String>,
    python_candidates: Vec<String>,
    probe: Option<PythonProbe>,
    torch_version_text: Option<String>,
    pip_candidates: Vec<String>,
    pip_output: Option<String>,
    module_pip_output: Option<String>,
) -> (r: PythonInfo)
    ensures
        r.virtual_env == virtual_env,
        r.conda_prefix == conda_prefix,
        python_candidates@.len() == 0 ==> {
            &&& r.executable is None && r.version is None && r.prefix is None && r.base_prefix is None
            &&& r.torch_version is None && r.torch_cuda is None
            &&& r.pip_executable is None && r.pip_version is None && r.pip_python_version is None
            &&& r.module_pip_version is None
            &&& r.executable_candidates@.len() == 0 && r.pip_candidates@.len() == 0
        },
        python_candidates@.len() > 0 ==> {
            &&& r.executable_candidates@ == python_candidates@
            &&& r.pip_candidates@ == pip_candidates@
            &&& r.pip_executable.deep_view() == if pip_candidates@.len() > 0 {
                Some(pip_candidates@[0]@)
            } else {
                None::<Seq<char>>
            }
            &&& (r.pip_version.deep_view(), r.pip_python_version.deep_view()) == match pip_output {
                Some(o) => spec_pip_version(o@),
                None => (None, None),
            }
            &&& r.module_pip_version.deep_view() == match module_pip_output {
                Some(o) => spec_pip_version(o@).0,
                None => None,
            }
            &&& match probe {
                Some(p) => {
                    &&& r.executable == Some(p.executable)
                    &&& r.version == Some(p.version)
                    &&& r.prefix == Some(p.prefix)
                    &&& r.base_prefix == Some(p.base_prefix)
                    &&& (r.torch_version.deep_view(), r.torch_cuda.deep_view()) == spec_torch_values(
                        torch_version_text.deep_view(),
                        p.torch_distribution_version.deep_view(),
                    )
                },
                None => {
                    &&& r.executable == Some(python_candidates@[0])
                    &&& r.version is None && r.prefix is None && r.base_prefix is None
                    &&& r.torch_version is None && r.torch_cuda is None
                },
            }
        },
{
    if python_candidates.len() == 0 {
        return PythonInfo {
            executable: None,
            version: None,
            prefix: None,
            base_prefix: None,
            virtual_env,
            conda_prefix,
            torch_version: None,
            torch_cuda: None,
            pip_executable: None,
            pip_version: None,
            pip_python_version: None,
            module_pip_version: None,
            executable_candidates: Vec::new(),
            pip_candidates: Vec::new(),
        };
    }
    let pip = if pip_candidates.len() > 0 {
        Some(pip_candidates[0].clone())
    } else {
        None
    };
    let (pip_version, pip_python_version) = match &pip_output {
        Some(o) => parse_pip_version(o.as_str()),
        None => (None, None),
    };
    let module_pip_version = match &module_pip_output {
        Some(o) => parse_pip_version(o.as_str()).0,
        None => None,
    };
    match probe {
        Some(p) => {
            let text: Option<&str> = match &torch_version_text {
                Some(t) => Some(t.as_str()),
                None => None,
            };
            let (torch_version, torch_cuda) = torch_values(text, p.torch_distribution_version);
            PythonInfo {
                executable: Some(p.executable),
                version: Some(p.version),
                prefix: Some(p.prefix),
                base_prefix: Some(p.base_prefix),
                virtual_env,
                conda_prefix,
                torch_version,
                torch_cuda,
                pip_executable: pip,
                pip_version,
                pip_python_version,
                module_pip_version,
                executable_candidates: python_candidates,
                pip_candidates,
            }
        },
        None => {
            let first = python_candidates[0].clone();
            PythonInfo {
                executable: Some(first),
                version: None,
                prefix: None,
                base_prefix: None,
                virtual_env,
                conda_prefix,
                torch_version: None,
                torch_cuda: None,
                pip_executable: pip,
                pip_version,
                pip_python_version,
                module_pip_version,
                executable_candidates: python_candidates,
                pip_candidates,
            }
        },
    }
}

} // verus!
