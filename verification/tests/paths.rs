use std::path::PathBuf;

use simplebookmarker::cli::{text_path_for_pdf, Cli, ExistingPolicy, RunPlan, DEFAULT_EXPORT_PATH};

/// The options the command line gives for `sbm NAME` with nothing else.
fn named(name: &str) -> Cli {
    Cli {
        name: Some(name.to_string()),
        ..unnamed()
    }
}

/// The options the command line gives when no argument is passed.
fn unnamed() -> Cli {
    Cli {
        name: None,
        input: None,
        bookmarks: None,
        output: None,
        in_place: false,
        dry_run: false,
        export: None,
        from_zero: false,
        on_existing: None,
    }
}

/// The value `--export` takes when no path follows it.
fn bare_export() -> Option<Option<String>> {
    Some(Some(DEFAULT_EXPORT_PATH.to_string()))
}

#[test]
fn resolves_default_paths() {
    let paths = named("book").paths().unwrap();

    assert_eq!(PathBuf::from(paths.input), PathBuf::from("book.pdf"));
    assert_eq!(PathBuf::from(paths.bookmarks), PathBuf::from("book.txt"));
    assert_eq!(PathBuf::from(paths.output), PathBuf::from("book_bm.pdf"));
}

#[test]
fn resolves_export_paths() {
    let paths = Cli {
        export: bare_export(),
        ..named("book")
    }
    .export_paths()
    .unwrap();

    assert_eq!(PathBuf::from(paths.input), PathBuf::from("book.pdf"));
    assert_eq!(PathBuf::from(paths.output), PathBuf::from("book.txt"));

    let paths = Cli {
        input: Some("source.pdf".to_string()),
        export: bare_export(),
        ..unnamed()
    }
    .export_paths()
    .unwrap();

    assert_eq!(PathBuf::from(paths.input), PathBuf::from("source.pdf"));
    assert_eq!(PathBuf::from(paths.output), PathBuf::from("source.txt"));

    let paths = Cli {
        export: Some(Some("out.txt".to_string())),
        ..named("book")
    }
    .export_paths()
    .unwrap();

    assert_eq!(PathBuf::from(paths.input), PathBuf::from("book.pdf"));
    assert_eq!(PathBuf::from(paths.output), PathBuf::from("out.txt"));
    assert!(Cli {
        dry_run: true,
        export: bare_export(),
        ..named("book")
    }
    .check_conflicts()
    .is_err());
}

#[test]
fn resolves_in_place_output_and_rejects_explicit_output() {
    let in_place = || Cli {
        in_place: true,
        ..named("book")
    };
    let paths = in_place().paths().unwrap();

    assert_eq!(PathBuf::from(paths.input), PathBuf::from("book.pdf"));
    assert_eq!(PathBuf::from(paths.output), PathBuf::from("book.pdf"));
    assert!(in_place().check_conflicts().is_ok());
    // `--in-place` (or its alias `--inplace`, which clap reads in app/)
    // makes the run replace its input.
    match in_place().plan().unwrap() {
        RunPlan::Bookmark { paths, .. } => assert_eq!(paths.output, "book.pdf"),
        RunPlan::Export(_) => panic!("expected a bookmarking run"),
    }
    assert!(Cli {
        output: Some("other.pdf".to_string()),
        ..in_place()
    }
    .check_conflicts()
    .is_err());
    assert_eq!(named("book").existing_policy(), ExistingPolicy::Create);
    assert_eq!(
        Cli {
            on_existing: Some(ExistingPolicy::Update),
            ..named("book")
        }
        .existing_policy(),
        ExistingPolicy::Update
    );
    assert_eq!(in_place().existing_policy(), ExistingPolicy::Update);
    assert_eq!(
        Cli {
            on_existing: Some(ExistingPolicy::Create),
            ..in_place()
        }
        .existing_policy(),
        ExistingPolicy::Create
    );
    assert_eq!(
        Cli {
            on_existing: Some(ExistingPolicy::Update),
            ..in_place()
        }
        .existing_policy(),
        ExistingPolicy::Update
    );
}

#[test]
fn parses_from_zero_and_rejects_irrelevant_options() {
    let from_zero = || Cli {
        from_zero: true,
        ..named("book")
    };
    assert!(from_zero().check_conflicts().is_ok());
    match from_zero().plan().unwrap() {
        RunPlan::Bookmark { from_zero, .. } => assert!(from_zero),
        RunPlan::Export(_) => panic!("expected a bookmarking run"),
    }
    assert!(Cli {
        export: bare_export(),
        ..from_zero()
    }
    .check_conflicts()
    .is_err());
    assert!(Cli {
        on_existing: Some(ExistingPolicy::Update),
        ..from_zero()
    }
    .check_conflicts()
    .is_err());
}

#[test]
fn reports_missing_names() {
    assert_eq!(unnamed().input_path(), Err("provide NAME or --input".to_string()));
    assert_eq!(unnamed().bookmark_path(), Err("provide NAME or --bookmarks".to_string()));
    assert_eq!(
        unnamed().paths().err(),
        Some("provide NAME or --input".to_string())
    );
    let only_input = Cli {
        input: Some("a.pdf".to_string()),
        ..unnamed()
    };
    assert_eq!(
        only_input.paths().err(),
        Some("provide NAME or --bookmarks".to_string())
    );
    assert_eq!(
        named("book").export_paths().err(),
        Some("provide --export to export bookmarks".to_string())
    );
}

#[test]
fn derives_output_from_the_input_file_stem() {
    let cli = Cli {
        input: Some("dir/source.v2.pdf".to_string()),
        bookmarks: Some("toc.txt".to_string()),
        ..unnamed()
    };
    let paths = cli.paths().unwrap();
    assert_eq!(paths.output, "dir/source.v2_bm.pdf");
    assert_eq!(paths.bookmarks, "toc.txt");

    let cli = Cli {
        input: Some("/".to_string()),
        bookmarks: Some("toc.txt".to_string()),
        ..unnamed()
    };
    assert_eq!(cli.paths().unwrap().output, "/output_bm.pdf");
}

#[test]
fn refuses_to_overwrite_the_input_without_in_place() {
    let cli = Cli {
        output: Some("dir//book.pdf".to_string()),
        input: Some("dir/book.pdf".to_string()),
        ..named("book")
    };
    assert_eq!(
        cli.paths().err(),
        Some("input and output files must be different".to_string())
    );
    let cli = Cli {
        output: Some("dir/other.pdf".to_string()),
        input: Some("dir/book.pdf".to_string()),
        ..named("book")
    };
    assert_eq!(cli.paths().unwrap().output, "dir/other.pdf");
}

#[test]
fn replaces_the_extension_for_the_text_file() {
    assert_eq!(text_path_for_pdf("dir/book.pdf"), "dir/book.txt");
    assert_eq!(text_path_for_pdf("book"), "book.txt");
    let paths = Cli {
        input: Some("archive.tar.pdf".to_string()),
        export: Some(None),
        ..unnamed()
    }
    .export_paths()
    .unwrap();
    assert_eq!(paths.output, "archive.tar.txt");
}

#[test]
fn names_each_conflict() {
    assert_eq!(
        Cli {
            in_place: true,
            output: Some("o.pdf".to_string()),
            ..named("b")
        }
        .check_conflicts(),
        Err("the argument '--in-place' cannot be used with '--output <PDF>'".to_string())
    );
    assert_eq!(
        Cli {
            from_zero: true,
            on_existing: Some(ExistingPolicy::Create),
            ..named("b")
        }
        .check_conflicts(),
        Err("the argument '--from-zero' cannot be used with '--on-existing <ON_EXISTING>'"
            .to_string())
    );
    assert_eq!(named("b").check_conflicts(), Ok(()));
}

#[test]
fn plans_an_export_run() {
    let plan = Cli {
        export: bare_export(),
        ..named("book")
    }
    .plan()
    .unwrap();
    match plan {
        RunPlan::Export(paths) => {
            assert_eq!(paths.input, "book.pdf");
            assert_eq!(paths.output, "book.txt");
        }
        RunPlan::Bookmark { .. } => panic!("expected an export run"),
    }
}

#[test]
fn plans_a_bookmarking_run() {
    let plan = Cli {
        in_place: true,
        dry_run: true,
        ..named("book")
    }
    .plan()
    .unwrap();
    match plan {
        RunPlan::Bookmark {
            paths,
            policy,
            dry_run,
            from_zero,
        } => {
            assert_eq!(paths.input, "book.pdf");
            assert_eq!(paths.bookmarks, "book.txt");
            assert_eq!(paths.output, "book.pdf");
            assert_eq!(policy, ExistingPolicy::Update);
            assert!(dry_run);
            assert!(!from_zero);
        }
        RunPlan::Export(_) => panic!("expected a bookmarking run"),
    }
}

#[test]
fn plan_refuses_conflicts_before_resolving_paths() {
    let error = Cli {
        dry_run: true,
        export: bare_export(),
        ..unnamed()
    }
    .plan()
    .err()
    .unwrap();
    assert_eq!(
        error,
        "the argument '--dry-run' cannot be used with '--export [<TEXT>]'"
    );
    assert_eq!(
        unnamed().plan().err().unwrap(),
        "provide NAME or --input"
    );
}

#[test]
fn explicit_paths_do_not_depend_on_the_name() {
    let explicit = Cli {
        input: Some("source.pdf".to_string()),
        bookmarks: Some("contents.txt".to_string()),
        output: Some("result.pdf".to_string()),
        ..unnamed()
    };
    let with_name = Cli {
        input: Some("source.pdf".to_string()),
        bookmarks: Some("contents.txt".to_string()),
        output: Some("result.pdf".to_string()),
        ..named("book")
    };
    let a = explicit.paths().unwrap();
    let b = with_name.paths().unwrap();
    assert_eq!((a.input, a.bookmarks, a.output), (b.input, b.bookmarks, b.output));
}

#[test]
fn an_output_that_repeats_the_input_is_refused() {
    let cli = Cli {
        input: Some("book.pdf".to_string()),
        bookmarks: Some("book.txt".to_string()),
        output: Some("book.pdf".to_string()),
        ..unnamed()
    };
    assert_eq!(
        cli.paths().err(),
        Some("input and output files must be different".to_string())
    );
}
