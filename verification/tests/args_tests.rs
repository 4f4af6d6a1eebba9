use bpaf::arg::Arg;
use bpaf::args::Args;
use bpaf::word::Word;

#[test]
fn long_arg() {
    let mut a = Args::from(&["--speed", "12"]);
    let s = a.take_arg(|f| f.is_long("speed")).unwrap().unwrap();
    assert_eq!(s.utf8.unwrap(), "12");
    assert!(a.is_empty());
}

#[test]
fn long_flag_and_positional() {
    let mut a = Args::from(&["--speed", "12"]);
    let flag = a.take_flag(|f| f.is_long("speed"));
    assert!(flag);
    assert!(!a.is_empty());
    let s = a.take_positional_word().unwrap().unwrap();
    assert_eq!(s.utf8.unwrap(), "12");
    assert!(a.is_empty());
}

#[test]
fn multiple_short_flags() {
    let mut a = Args::from(&["-vvv"]);
    assert!(a.take_flag(|f| f.is_short('v')));
    assert!(a.take_flag(|f| f.is_short('v')));
    assert!(a.take_flag(|f| f.is_short('v')));
    assert!(!a.take_flag(|f| f.is_short('v')));
    assert!(a.is_empty());
}

#[test]
fn long_arg_with_equality() {
    let mut a = Args::from(&["--speed=12"]);
    let s = a.take_arg(|f| f.is_long("speed")).unwrap().unwrap();
    assert_eq!(s.utf8.unwrap(), "12");
    assert!(a.is_empty());
}

#[test]
fn long_arg_with_equality_and_minus() {
    let mut a = Args::from(&["--speed=-12"]);
    let s = a.take_arg(|f| f.is_long("speed")).unwrap().unwrap();
    assert_eq!(s.utf8.unwrap(), "-12");
    assert!(a.is_empty());
}

#[test]
fn short_arg_with_equality() {
    let mut a = Args::from(&["-s=12"]);
    let s = a.take_arg(|f| f.is_short('s')).unwrap().unwrap();
    assert_eq!(s.utf8.unwrap(), "12");
    assert!(a.is_empty());
}

#[test]
fn short_arg_with_equality_and_minus() {
    let mut a = Args::from(&["-s=-12"]);
    let s = a.take_arg(|f| f.is_short('s')).unwrap().unwrap();
    assert_eq!(s.utf8.unwrap(), "-12");
    assert!(a.is_empty());
}

#[test]
fn short_arg_without_equality() {
    let mut a = Args::from(&["-s", "12"]);
    let s = a.take_arg(|f| f.is_short('s')).unwrap().unwrap();
    assert_eq!(s.utf8.unwrap(), "12");
    assert!(a.is_empty());
}

#[test]
fn two_short_flags() {
    let mut a = Args::from(&["-s", "-v"]);
    assert!(a.take_flag(|f| f.is_short('s')));
    assert!(a.take_flag(|f| f.is_short('v')));
    assert!(a.is_empty());
}

#[test]
fn two_short_flags2() {
    let mut a = Args::from(&["-s", "-v"]);
    assert!(a.take_flag(|f| f.is_short('v')));
    assert!(!a.take_flag(|f| f.is_short('v')));
    assert!(a.take_flag(|f| f.is_short('s')));
    assert!(!a.take_flag(|f| f.is_short('s')));
    assert!(a.is_empty());
}

#[test]
fn command_with_flags() {
    let mut a = Args::from(&["cmd", "-s", "v"]);
    assert!(a.take_cmd("cmd"));
    let s = a.take_arg(|f| f.is_short('s')).unwrap().unwrap();
    assert_eq!(s.utf8.unwrap(), "v");
    assert!(a.is_empty());
}

#[test]
fn command_and_positional() {
    let mut a = Args::from(&["cmd", "pos"]);
    assert!(a.take_cmd("cmd"));
    let w = a.take_positional_word().unwrap().unwrap();
    assert_eq!(w.utf8.unwrap(), "pos");
    assert!(a.is_empty());
}

#[test]
fn positionals_after_double_dash() {
    let mut a = Args::from(&["-v", "--", "-x"]);
    assert!(a.take_flag(|f| f.is_short('v')));
    let w = a.take_positional_word().unwrap().unwrap();
    assert_eq!(w.utf8.unwrap(), "-x");
    assert!(a.is_empty());
}

#[test]
fn positionals_after_double_dash2() {
    let mut a = Args::from(&["-v", "12", "--", "-x"]);
    let w = a.take_arg(|f| f.is_short('v')).unwrap().unwrap();
    assert_eq!(w.utf8.unwrap(), "12");
    let w = a.take_positional_word().unwrap().unwrap();
    assert_eq!(w.utf8.unwrap(), "-x");
    assert!(a.is_empty());
}

#[test]
fn long_arg_parses_to_int() {
    let mut a = Args::from(&["--speed", "12"]);
    let s = a.take_arg(|f| f.is_long("speed")).unwrap().unwrap();
    let speed: i64 = s.utf8.unwrap().parse().unwrap();
    assert_eq!(speed, 12);
    assert!(a.is_empty());
}

#[test]
fn repeated_short_flag_counts() {
    let mut a = Args::from(&["-vvv"]);
    let mut count = 0;
    while a.take_flag(|f| f.is_short('v')) {
        count += 1;
    }
    assert_eq!(count, 3);
    assert!(a.is_empty());
}

#[test]
fn long_arg_with_equality_parses_negative_int() {
    let mut a = Args::from(&["--speed=-12"]);
    let s = a.take_arg(|f| f.is_long("speed")).unwrap().unwrap();
    let speed: i64 = s.utf8.unwrap().parse().unwrap();
    assert_eq!(speed, -12);
    assert!(a.is_empty());
}

#[test]
fn short_cluster_of_distinct_flags() {
    let mut a = Args::from(&["-ab"]);
    assert!(a.take_flag(|f| f.is_short('a')));
    assert!(a.take_flag(|f| f.is_short('b')));
    assert!(!a.take_flag(|f| f.is_short('a')));
    assert!(a.is_empty());
}

#[test]
fn long_with_empty_value() {
    let mut a = Args::from(&["--k="]);
    let s = a.take_arg(|f| f.is_long("k")).unwrap().unwrap();
    assert_eq!(s.utf8.unwrap(), "");
    assert!(a.is_empty());
}

#[test]
fn long_with_negative_value_is_not_a_flag() {
    let mut a = Args::from(&["--k=-1"]);
    let s = a.take_arg(|f| f.is_long("k")).unwrap().unwrap();
    assert_eq!(s.utf8.unwrap(), "-1");
    assert!(a.is_empty());
}

#[test]
fn missing_argument_message() {
    let mut a = Args::from(&["--speed"]);
    let e = a.take_arg(|f| f.is_long("speed")).unwrap_err();
    assert_eq!(e.message().as_str(), "--speed requires an argument");
    assert_eq!(a.len(), 1);
}

#[test]
fn argument_followed_by_flag_message() {
    let mut a = Args::from(&["-s", "-v"]);
    let e = a.take_arg(|f| f.is_short('s')).unwrap_err();
    assert_eq!(e.message().as_str(), "-s requires an argument, got flag -v");
    assert_eq!(a.len(), 2);
}

#[test]
fn positional_blocked_by_flag_message() {
    let mut a = Args::from(&["-v"]);
    let e = a.take_positional_word().unwrap_err();
    assert_eq!(e.message().as_str(), "Expected an argument, got -v");
    assert_eq!(a.len(), 1);
}

#[test]
fn leftover_token_is_visible() {
    let a = Args::from(&["unexpected"]);
    assert!(!a.is_empty());
    assert_eq!(a.len(), 1);
    let first = a.peek().unwrap();
    assert_eq!(first.render().unwrap(), "unexpected");
}

#[test]
fn absent_flag_leaves_buffer_unchanged() {
    let mut a = Args::from(&["-v", "word"]);
    assert_eq!(a.len(), 2);
    assert!(!a.take_flag(|f| f.is_short('x')));
    assert_eq!(a.len(), 2);
    assert!(a.take_arg(|f| f.is_long("nope")).unwrap().is_none());
    assert_eq!(a.len(), 2);
    assert!(!a.take_cmd("nope"));
    assert_eq!(a.len(), 2);
}

#[test]
fn len_counts_unremoved_tokens() {
    let mut a = Args::from(&["-a", "-b", "-c"]);
    assert_eq!(a.len(), 3);
    assert!(a.take_flag(|f| f.is_short('b')));
    assert_eq!(a.len(), 2);
    a.remove(0);
    assert_eq!(a.len(), 1);
    a.remove(0);
    assert_eq!(a.len(), 1);
    a.remove(2);
    assert_eq!(a.len(), 0);
    assert!(a.is_empty());
}

#[test]
fn clone_is_independent() {
    let a = Args::from(&["-v", "w"]);
    let mut b = a.clone();
    assert!(b.take_flag(|f| f.is_short('v')));
    assert_eq!(b.len(), 1);
    assert_eq!(a.len(), 2);
    let mut a2 = a.clone();
    assert!(a2.take_flag(|f| f.is_short('v')));
}

#[test]
fn sequential_takes_consume_distinct_tokens() {
    let mut a = Args::from(&["-aa"]);
    assert!(a.take_flag(|f| f.is_short('a')));
    assert!(a.take_flag(|f| f.is_short('a')));
    assert!(!a.take_flag(|f| f.is_short('a')));
    assert!(a.is_empty());
}

#[test]
fn render_of_tokens() {
    assert_eq!(Arg::Short('v').render().unwrap(), "-v");
    assert_eq!(Arg::Long(String::from("speed")).render().unwrap(), "--speed");
    let w = Word::from_text("plain");
    assert_eq!(Arg::Word(w).render().unwrap(), "plain");
    let raw = Word { utf8: None, os: vec![0xff, 0xfe] };
    assert!(Arg::Word(raw).render().is_none());
}

#[test]
fn retokenizing_rendered_flags_gives_them_back() {
    let a = Args::from(&["-v", "--speed", "word"]);
    let mut it = a.items_iter();
    let mut rendered: Vec<String> = Vec::new();
    while let Some((_ix, tok)) = it.next() {
        rendered.push(tok.render().unwrap());
    }
    assert_eq!(rendered, vec!["-v", "--speed", "word"]);
    let texts: Vec<&str> = rendered.iter().map(|s| s.as_str()).collect();
    let mut b = Args::from_strs(&texts);
    assert_eq!(b.len(), 3);
    assert!(b.take_flag(|f| f.is_short('v')));
    assert!(b.take_flag(|f| f.is_long("speed")));
    let w = b.take_positional_word().unwrap().unwrap();
    assert_eq!(w.utf8.unwrap(), "word");
    assert!(b.is_empty());
}

#[test]
fn single_dash_produces_no_token() {
    let a = Args::from(&["-"]);
    assert!(a.is_empty());
}

#[test]
fn items_iter_skips_removed() {
    let mut a = Args::from(&["-a", "-b", "-c"]);
    assert!(a.take_flag(|f| f.is_short('b')));
    let mut it = a.items_iter();
    let (i0, t0) = it.next().unwrap();
    assert_eq!(i0, 0);
    assert!(t0.is_short('a'));
    let (i1, t1) = it.next().unwrap();
    assert_eq!(i1, 2);
    assert!(t1.is_short('c'));
    assert!(it.next().is_none());
}

#[test]
fn current_word_tracks_last_value() {
    let mut a = Args::from(&["--speed", "12"]);
    assert!(a.current_word().is_none());
    let _ = a.take_arg(|f| f.is_long("speed")).unwrap().unwrap();
    let cur = a.current_word().as_ref().unwrap();
    assert_eq!(cur.utf8.as_ref().unwrap().as_str(), "12");
}

#[test]
fn peek_sees_first_remaining() {
    let mut a = Args::from(&["-a", "w"]);
    assert!(a.peek().unwrap().is_short('a'));
    assert!(a.take_flag(|f| f.is_short('a')));
    assert_eq!(a.peek().unwrap().render().unwrap(), "w");
    let _ = a.take_positional_word().unwrap().unwrap();
    assert!(a.peek().is_none());
}

#[test]
fn opaque_word_survives_the_buffer() {
    let raw = Word { utf8: None, os: vec![0x80, 0x81] };
    let mut a = Args::from_args(vec![Arg::Word(raw)]);
    let w = a.take_positional_word().unwrap().unwrap();
    assert!(w.utf8.is_none());
    assert_eq!(w.os, vec![0x80, 0x81]);
    assert!(a.is_empty());
}

#[test]
fn word_from_text_keeps_bytes() {
    let w = Word::from_text("hello-x");
    assert_eq!(w.utf8.as_ref().unwrap().as_str(), "hello-x");
    assert_eq!(w.os, "hello-x".as_bytes().to_vec());
    let d = w.duplicate();
    assert_eq!(d.utf8.unwrap(), "hello-x");
    assert_eq!(d.os, w.os);
}
