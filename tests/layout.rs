use executable_packer::layout::{launcher_script, plan_layout};

#[test]
fn layout_of_app() {
    let l = plan_layout(b"/usr/local/bin/app").unwrap();
    assert_eq!(l.root, b"app".to_vec());
    assert_eq!(l.bin_dir, b"app/bin".to_vec());
    assert_eq!(l.lib_dir, b"app/lib".to_vec());
    assert_eq!(l.original_dir, b"app/original_executable".to_vec());
    assert_eq!(l.launcher, b"app/bin/app".to_vec());
    assert_eq!(l.original, b"app/original_executable/app".to_vec());
}

#[test]
fn layout_of_relative_path() {
    let l = plan_layout(b"app").unwrap();
    assert_eq!(l.launcher, b"app/bin/app".to_vec());
}

#[test]
fn layout_needs_file_name() {
    assert!(plan_layout(b"/usr/bin/").is_none());
    assert!(plan_layout(b"").is_none());
    assert!(plan_layout(b"..").is_none());
}

#[test]
fn launcher_runs_original_with_private_lib() {
    let script = String::from_utf8(launcher_script(b"app")).unwrap();
    assert_eq!(
        script,
        "#! /usr/bin/env bash\nset -euo pipefail\nHERE=$(dirname $(readlink -f \"$BASH_SOURCE\"))\nPRELOAD=$(readlink -f \"$HERE/../lib\")\nLD_LIBRARY_PATH=\"$PRELOAD\" exec \"$HERE/../original_executable/app\" \"$@\"\n"
    );
}
