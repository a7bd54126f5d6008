use shbundle::bundler::{assemble, build_replacement, render_include, Bundler, IncludeAction};
use shbundle::errors::BundleError;
use shbundle::parse::parse_document;
use shbundle::scan::Pending;

/// How the driver answers an inline-build command: success flag, exit code,
/// captured stdout.
type CmdRunner<'a> = &'a mut dyn FnMut(&[u8]) -> (bool, i32, Vec<u8>);

fn lookup<'a>(files: &'a [(&'a str, &'a str)], path: &str) -> Option<&'a str> {
    files.iter().find(|(k, _)| *k == path).map(|(_, v)| *v)
}

fn parent_dir(path: &str) -> String {
    match path.rsplit_once('/') {
        Some((d, _)) => d.to_string(),
        None => String::new(),
    }
}

/// The role the surrounding program plays for one document: parse, scan,
/// resolve includes against an in-memory file table, run build commands
/// through the supplied runner, and assemble the rewritten text.
fn bundle_doc(
    b: &mut Bundler,
    src: Vec<u8>,
    dir: &str,
    files: &[(&str, &str)],
    run: CmdRunner,
) -> Result<Vec<u8>, BundleError> {
    let tree = parse_document(&src)?;
    let ds = b.scan_document(&src, &tree)?;
    let mut fills: Vec<Vec<u8>> = Vec::new();
    for p in &ds.pendings {
        match p {
            Pending::Include { path, .. } => {
                let pstr = String::from_utf8(path.clone()).expect("path is utf-8");
                let canon = if pstr.starts_with('/') {
                    pstr
                } else {
                    format!("{}/{}", dir, pstr)
                };
                let content = match lookup(files, &canon) {
                    Some(c) => c.to_string(),
                    None => return Err(BundleError::UnresolvableIncludeArgument(path.clone())),
                };
                match b.include_decision(canon.clone().into_bytes())? {
                    IncludeAction::Skip => fills.push(Vec::new()),
                    IncludeAction::Recurse(rel) => {
                        let child_dir = parent_dir(&canon);
                        let body =
                            bundle_doc(b, content.into_bytes(), &child_dir, files, run)?;
                        b.leave_file();
                        fills.push(render_include(&rel, &body));
                    }
                }
            }
            Pending::Build { command, .. } => {
                let (ok, code, stdout) = run(command);
                let fill = build_replacement(command.clone(), ok, code, &stdout)?;
                fills.push(fill);
            }
        }
    }
    assert_eq!(fills.len(), ds.pendings.len());
    assemble(&src, ds, fills)
}

fn bundle(
    files: &[(&str, &str)],
    root: &str,
    entry: &str,
    run: CmdRunner,
) -> Result<String, BundleError> {
    let src = lookup(files, entry).expect("entry file exists").to_string();
    let dir = parent_dir(entry);
    let mut b = Bundler::new(root.as_bytes().to_vec());
    let body = bundle_doc(&mut b, src.into_bytes(), &dir, files, run)?;
    let out = b.finish(&body)?;
    Ok(String::from_utf8(out).expect("bundle is utf-8"))
}

fn no_cmds(_c: &[u8]) -> (bool, i32, Vec<u8>) {
    panic!("no inline-build command expected");
}

#[test]
fn selector_only_byte_for_byte() {
    let files = [("/r/a.sh", "#!/bin/bash\necho hello\n")];
    let out = bundle(&files, "/r", "/r/a.sh", &mut no_cmds).unwrap();
    assert_eq!(out, "#!/bin/bash\n\necho hello\n");
}

#[test]
fn selector_missing_is_refused() {
    let files = [("/r/a.sh", "echo hello\n")];
    let err = bundle(&files, "/r", "/r/a.sh", &mut no_cmds).unwrap_err();
    assert!(matches!(err, BundleError::SelectorMissing));
}

#[test]
fn selector_duplicate_in_one_file() {
    let files = [("/r/a.sh", "#!/bin/bash\n#!/bin/sh\necho x\n")];
    let err = bundle(&files, "/r", "/r/a.sh", &mut no_cmds).unwrap_err();
    assert!(matches!(err, BundleError::SelectorDuplicate));
}

#[test]
fn selector_not_on_first_line() {
    let files = [("/r/a.sh", "echo x\n#!/bin/bash\n")];
    let err = bundle(&files, "/r", "/r/a.sh", &mut no_cmds).unwrap_err();
    assert!(matches!(err, BundleError::SelectorMisplaced));
}

#[test]
fn selector_conflict_names_both_texts() {
    let files = [
        ("/r/a.sh", "#!/bin/bash\nsource b.sh\n"),
        ("/r/b.sh", "#!/bin/sh\necho b\n"),
    ];
    let err = bundle(&files, "/r", "/r/a.sh", &mut no_cmds).unwrap_err();
    match err {
        BundleError::SelectorConflict(first, second) => {
            assert_eq!(first, b"#!/bin/bash".to_vec());
            assert_eq!(second, b"#!/bin/sh".to_vec());
        }
        other => panic!("expected SelectorConflict, got {}", other.describe()),
    }
}

#[test]
fn identical_selectors_across_files_succeed() {
    let files = [
        ("/r/a.sh", "#!/bin/bash\nsource b.sh\n"),
        ("/r/b.sh", "#!/bin/bash\necho b\n"),
    ];
    let out = bundle(&files, "/r", "/r/a.sh", &mut no_cmds).unwrap();
    assert!(out.starts_with("#!/bin/bash\n\n"));
    assert!(out.contains("# source b.sh\n\necho b\n\n\n#########"));
}

#[test]
fn sourcing_same_file_twice_inlines_once() {
    let files = [
        ("/r/a.sh", "#!/bin/bash\nsource b.sh\nsource b.sh\necho a\n"),
        ("/r/b.sh", "echo unique_marker\n"),
    ];
    let out = bundle(&files, "/r", "/r/a.sh", &mut no_cmds).unwrap();
    assert_eq!(out.matches("echo unique_marker").count(), 1);
    assert_eq!(out.matches("# source b.sh").count(), 1);
}

#[test]
fn include_via_dot_and_quotes() {
    let files = [
        ("/r/a.sh", "#!/bin/bash\n. \"b.sh\"\nsource 'c.sh'\n"),
        ("/r/b.sh", "echo b\n"),
        ("/r/c.sh", "echo c\n"),
    ];
    let out = bundle(&files, "/r", "/r/a.sh", &mut no_cmds).unwrap();
    assert!(out.contains("# source b.sh"));
    assert!(out.contains("echo b\n"));
    assert!(out.contains("# source c.sh"));
    assert!(out.contains("echo c\n"));
}

#[test]
fn nested_includes_are_flattened() {
    let files = [
        ("/r/a.sh", "#!/bin/bash\nsource sub/b.sh\n"),
        ("/r/sub/b.sh", "source c.sh\necho b\n"),
        ("/r/sub/c.sh", "echo c\n"),
    ];
    let out = bundle(&files, "/r", "/r/a.sh", &mut no_cmds).unwrap();
    assert!(out.contains("# source sub/b.sh"));
    assert!(out.contains("# source sub/c.sh"));
    assert!(out.contains("echo b\n"));
    assert!(out.contains("echo c\n"));
}

#[test]
fn direct_cycle_is_refused() {
    let files = [("/r/a.sh", "#!/bin/bash\nsource b.sh\n"), ("/r/b.sh", "source b.sh\n")];
    let err = bundle(&files, "/r", "/r/a.sh", &mut no_cmds).unwrap_err();
    assert!(matches!(err, BundleError::CircularInclude(_)));
}

#[test]
fn transitive_cycle_is_refused() {
    let files = [
        ("/r/a.sh", "#!/bin/bash\nsource b.sh\n"),
        ("/r/b.sh", "source c.sh\n"),
        ("/r/c.sh", "source b.sh\n"),
    ];
    let err = bundle(&files, "/r", "/r/a.sh", &mut no_cmds).unwrap_err();
    assert!(matches!(err, BundleError::CircularInclude(_)));
}

#[test]
fn include_outside_root_is_refused() {
    let files = [("/r/proj/a.sh", "#!/bin/bash\nsource /r/other.sh\n"), ("/r/other.sh", "echo x\n")];
    let err = bundle(&files, "/r/proj", "/r/proj/a.sh", &mut no_cmds).unwrap_err();
    match err {
        BundleError::IncludeOutsideRoot(path) => {
            assert_eq!(path, b"/r/other.sh".to_vec());
        }
        other => panic!("expected IncludeOutsideRoot, got {}", other.describe()),
    }
}

#[test]
fn missing_include_target_is_refused() {
    let files = [("/r/a.sh", "#!/bin/bash\nsource nowhere.sh\n")];
    let err = bundle(&files, "/r", "/r/a.sh", &mut no_cmds).unwrap_err();
    assert!(matches!(err, BundleError::UnresolvableIncludeArgument(_)));
}

#[test]
fn computed_include_path_is_refused() {
    let files = [("/r/a.sh", "#!/bin/bash\nsource $(pick).sh\n")];
    let err = bundle(&files, "/r", "/r/a.sh", &mut no_cmds).unwrap_err();
    assert!(matches!(err, BundleError::UnresolvableIncludeArgument(_)));
}

#[test]
fn inline_build_freezes_output() {
    let files = [("/r/a.sh", "#!/bin/bash\necho $(printf 'hi') # build: inline\n")];
    let mut seen: Vec<Vec<u8>> = Vec::new();
    let mut run = |c: &[u8]| {
        seen.push(c.to_vec());
        (true, 0, b"hi".to_vec())
    };
    let out = bundle(&files, "/r", "/r/a.sh", &mut run).unwrap();
    assert_eq!(seen.len(), 1);
    assert_eq!(seen[0], b"printf 'hi'".to_vec());
    // "hi" in the standard base64 alphabet is aGk=
    assert!(out.contains("$(echo 'aGk=' | base64 -d)"));
    assert!(!out.contains("# build: inline"));
    assert!(!out.contains("printf"));
}

#[test]
fn inline_build_marker_on_next_line() {
    let files = [("/r/a.sh", "#!/bin/bash\nx=$(date)\n# build: inline\necho \"$x\"\n")];
    let mut run = |_c: &[u8]| (true, 0, b"now".to_vec());
    let out = bundle(&files, "/r", "/r/a.sh", &mut run).unwrap();
    assert!(out.contains("| base64 -d)"));
    assert!(!out.contains("# build: inline"));
}

#[test]
fn failing_build_command_is_fatal() {
    let files = [("/r/a.sh", "#!/bin/bash\necho $(false) # build: inline\n")];
    let mut run = |_c: &[u8]| (false, 3, Vec::new());
    let err = bundle(&files, "/r", "/r/a.sh", &mut run).unwrap_err();
    match err {
        BundleError::SubcommandFailure(cmd, code) => {
            assert_eq!(cmd, b"false".to_vec());
            assert_eq!(code, 3);
        }
        other => panic!("expected SubcommandFailure, got {}", other.describe()),
    }
}

#[test]
fn comment_without_marker_text_is_kept() {
    let files = [("/r/a.sh", "#!/bin/bash\necho $(date) # build: later\n")];
    let out = bundle(&files, "/r", "/r/a.sh", &mut no_cmds).unwrap();
    assert!(out.contains("echo $(date) # build: later\n"));
}

#[test]
fn round_trip_output_reparses_clean() {
    let files = [("/r/a.sh", "#!/bin/bash\necho one\necho two\n")];
    let out = bundle(&files, "/r", "/r/a.sh", &mut no_cmds).unwrap();
    let bytes = out.clone().into_bytes();
    let tree = parse_document(&bytes).unwrap();
    let mut selector_count = 0;
    for n in tree.nodes.iter() {
        let text = &bytes[n.start..n.end];
        if matches!(n.kind, shbundle::tree::NodeKind::Comment) && text.starts_with(b"#!") {
            selector_count += 1;
            assert_eq!(n.start, 0);
        }
        if matches!(n.kind, shbundle::tree::NodeKind::Command) {
            assert!(!text.starts_with(b"source ") && !text.starts_with(b". "));
        }
        assert_ne!(text, b"# build: inline");
    }
    assert_eq!(selector_count, 1);
}

#[test]
fn selector_line_and_its_break_are_removed_exactly() {
    let files = [(
        "/r/a.sh",
        "#!/usr/bin/env bash\n# helper\nf() {\n  echo hi\n}\nf\n",
    )];
    let out = bundle(&files, "/r", "/r/a.sh", &mut no_cmds).unwrap();
    assert_eq!(out, "#!/usr/bin/env bash\n\n# helper\nf() {\n  echo hi\n}\nf\n");
}

#[test]
fn selector_alone_in_file() {
    let files = [("/r/a.sh", "#!/bin/sh\n")];
    let out = bundle(&files, "/r", "/r/a.sh", &mut no_cmds).unwrap();
    assert_eq!(out, "#!/bin/sh\n\n\n");
}
