use mlx_rerank::cli::{sweep_sizes, ArgError, Flag, Mode, Options, Task};
use mlx_rerank::model::Architecture;

fn parse(args: &[&str]) -> Result<Options, ArgError> {
    let mut all = vec!["rerank".to_string()];
    all.extend(args.iter().map(|s| s.to_string()));
    Options::parse(&all)
}

#[test]
fn defaults() {
    for o in [parse(&[]).unwrap(), Options::parse(&vec![]).unwrap(), Options::none()] {
        assert!(o.dump.is_none() && o.ndocs.is_none() && o.sub_batch.is_none());
        assert!(!o.sweep && !o.overlap && !o.perchunk && !o.serve);
        assert_eq!(o.port, 8088);
        assert_eq!(o.doc_limit(), 100);
        assert_eq!(o.sub_batch_for(Architecture::Nemotron), 10);
        assert_eq!(o.sub_batch_for(Architecture::Kalm), 25);
        assert_eq!(o.task(), Task::Bench(Mode::Deferred));
    }
}

#[test]
fn values() {
    let o = parse(&["--dump", "scores.json", "--subbatch", "25", "--port", "9000"]).unwrap();
    assert_eq!(o.dump.as_deref(), Some("scores.json"));
    assert_eq!(o.doc_limit(), 3);
    assert_eq!(o.sub_batch_for(Architecture::Nemotron), 25);
    assert_eq!(o.port, 9000);
    assert_eq!(o.task(), Task::Dump);
    let o = parse(&["--dump", "x", "--ndocs", "100"]).unwrap();
    assert_eq!(o.doc_limit(), 100);
    assert_eq!(parse(&["--ndocs", "0"]).unwrap().doc_limit(), 0);
}

#[test]
fn later_values_win() {
    let o = parse(&["--ndocs", "5", "--ndocs", "7", "--subbatch", "1", "--subbatch", "2"]).unwrap();
    assert_eq!(o.doc_limit(), 7);
    assert_eq!(o.sub_batch, Some(2));
}

#[test]
fn an_option_takes_the_argument_behind_it() {
    let o = parse(&["--dump", "--sweep"]).unwrap();
    assert_eq!(o.dump.as_deref(), Some("--sweep"));
    assert!(!o.sweep);
}

#[test]
fn unknown_arguments_are_skipped() {
    let o = parse(&["what", "--sweep", "--verbose", "3"]).unwrap();
    assert_eq!(o.task(), Task::Sweep);
    let all = vec!["--sweep".to_string(), "--overlap".to_string()];
    let o = Options::parse(&all).unwrap();
    assert!(!o.sweep && o.overlap);
}

#[test]
fn tasks() {
    assert_eq!(parse(&["--serve", "--dump", "x", "--sweep"]).unwrap().task(), Task::Serve);
    assert_eq!(parse(&["--sweep", "--dump", "x"]).unwrap().task(), Task::Dump);
    assert_eq!(parse(&["--overlap", "--sweep"]).unwrap().task(), Task::Sweep);
    assert_eq!(parse(&["--overlap"]).unwrap().task(), Task::Bench(Mode::Overlap));
    let both = parse(&["--overlap", "--perchunk"]).unwrap();
    assert_eq!(both.task(), Task::Bench(Mode::PerChunk));
}

#[test]
fn labels() {
    assert_eq!(Mode::Deferred.label(), "deferred-eval");
    assert_eq!(Mode::PerChunk.label(), "per-chunk-eval");
    assert_eq!(Mode::Overlap.label(), "overlap");
    assert_eq!(sweep_sizes(), vec![100, 50, 25, 10]);
}

#[test]
fn missing_values() {
    for (flag, text) in [
        ("--dump", "--dump needs a value"),
        ("--ndocs", "--ndocs needs a value"),
        ("--subbatch", "--subbatch needs a value"),
        ("--port", "--port needs a value"),
    ] {
        let e = parse(&["--sweep", flag]).unwrap_err();
        assert!(matches!(e, ArgError::NeedsValue(_)));
        assert_eq!(e.message().as_deref(), Some(text));
    }
}

#[test]
fn values_that_are_no_numbers() {
    let e = parse(&["--ndocs", "ten"]).unwrap_err();
    assert!(matches!(&e, ArgError::NotANumber(Flag::Ndocs, v) if v == "ten"));
    assert_eq!(e.message(), None);
    let e = parse(&["--subbatch", "-1"]).unwrap_err();
    assert!(matches!(&e, ArgError::NotANumber(Flag::Subbatch, v) if v == "-1"));
    let e = parse(&["--port", "65536"]).unwrap_err();
    assert!(matches!(&e, ArgError::NotANumber(Flag::Port, v) if v == "65536"));
}

#[test]
fn sub_batches_are_not_empty() {
    let e = parse(&["--subbatch", "0", "--dump"]).unwrap_err();
    assert!(matches!(e, ArgError::ZeroSubBatch));
    assert_eq!(e.message().as_deref(), Some("--subbatch must be >= 1"));
}

#[test]
fn the_first_refusal_counts() {
    let e = parse(&["--ndocs", "x", "--subbatch", "0"]).unwrap_err();
    assert!(matches!(e, ArgError::NotANumber(Flag::Ndocs, _)));
}
