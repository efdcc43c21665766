use devx::snapshot::cuda::{cuda_info, parse_driver_cuda, parse_driver_version, parse_release};
use devx::snapshot::python::{merge_candidates, parse_pip_version, parse_torch_version_file, torch_values};

#[test]
fn parses_nvcc_release() {
    assert_eq!(
        parse_release("Cuda compilation tools, release 12.4, V12.4.99").as_deref(),
        Some("12.4")
    );
}

#[test]
fn parses_driver_capability() {
    assert_eq!(
        parse_driver_cuda("Driver Version: 570.0  CUDA Version: 12.8"),
        Some("12.8".into())
    );
}

#[test]
fn parses_driver_version() {
    assert_eq!(
        parse_driver_version("NVIDIA-SMI 570.124.06  Driver Version: 570.124.06  CUDA Version: 12.8"),
        Some("570.124.06".into())
    );
}

#[test]
fn parses_pip_version() {
    assert_eq!(
        parse_pip_version("pip 25.1 from /venv/lib/python3.12/site-packages/pip (python 3.12)"),
        (Some("25.1".into()), Some("3.12".into()))
    );
}

#[test]
fn parses_torch_generated_version_file() {
    let contents = "__version__ = '2.9.1+cu128'\ndebug = False\ncuda: Optional[str] = '12.8'\n";
    assert_eq!(
        parse_torch_version_file(contents),
        (Some("2.9.1+cu128".into()), Some("12.8".into()))
    );
}

#[test]
fn missing_release_or_labels_give_nothing() {
    assert_eq!(parse_release("no version here"), None);
    assert_eq!(parse_driver_cuda("Driver Version: 570.0"), None);
    assert_eq!(parse_driver_version("CUDA Version: 12.8"), None);
    assert_eq!(parse_pip_version("not pip (python 3.12"), (None, None));
}

#[test]
fn torch_version_falls_back_to_the_distribution() {
    assert_eq!(
        torch_values(Some("cuda = None\n"), Some("2.4.0".into())),
        (Some("2.4.0".into()), None)
    );
    assert_eq!(
        torch_values(None, Some("2.4.0".into())),
        (Some("2.4.0".into()), None)
    );
    assert_eq!(
        torch_values(Some("__version__ = \"2.5.1\"\n"), Some("2.4.0".into())),
        (Some("2.5.1".into()), None)
    );
}

#[test]
fn candidate_lists_drop_adjacent_repeats() {
    let merged = merge_candidates(
        vec!["/usr/bin/python3".into(), "/usr/local/bin/python3".into()],
        vec!["/usr/local/bin/python3".into(), "/usr/bin/python3".into()],
    );
    assert_eq!(
        merged,
        vec![
            "/usr/bin/python3".to_string(),
            "/usr/local/bin/python3".to_string(),
            "/usr/bin/python3".to_string()
        ]
    );
}

#[test]
fn cuda_home_and_nvcc_fallbacks() {
    let info = cuda_info(
        None,
        Some("/opt/cuda".into()),
        None,
        true,
        Some("Cuda compilation tools, release 12.4, V12.4.99".into()),
        Some("Driver Version: 570.0  CUDA Version: 12.8".into()),
    );
    assert_eq!(info.cuda_home.as_deref(), Some("/opt/cuda"));
    assert_eq!(info.nvcc_path.as_deref(), Some("/opt/cuda/bin/nvcc"));
    assert_eq!(info.nvcc_version.as_deref(), Some("12.4"));
    assert_eq!(info.driver_version.as_deref(), Some("570.0"));
    assert_eq!(info.driver_cuda.as_deref(), Some("12.8"));
    let none = cuda_info(Some("/a".into()), Some("/b".into()), None, false, None, None);
    assert_eq!(none.cuda_home.as_deref(), Some("/a"));
    assert_eq!(none.nvcc_path, None);
}
