use xparse::{from_slice, Source, SourceBase};

#[test]
fn read_test() {
    let data = b"01234567";
    let mut source = from_slice(data);
    let mut fork0 = source.fork();
    assert_eq!(fork0.read(9), b"01234567");
    let mut fork1 = fork0.fork();
    fork1.consume(3);
    fork0.join(fork1);
    let mut fork = fork0.fork();
    assert_eq!(fork.read(3), b"345");
    fork.consume(4);
    drop(fork);
    fork0.consume(3);
    assert_eq!(fork0.read(3), b"67");
    source.join(fork0);
    assert_eq!(source.read(3), b"67");
    source.consume(2);
    assert_eq!(source.read(5), []);
}

#[test]
fn fork_join_without_consumption_keeps_position() {
    let data = b"abcdef";
    let mut source = from_slice(data);
    source.consume(2);
    let before = source.position();
    let fork = source.fork();
    source.join(fork);
    assert_eq!(source.position(), before);
    assert_eq!(source.position(), 2);
}

#[test]
fn dropped_fork_rolls_back() {
    let data = b"abcdef";
    let mut source = from_slice(data);
    source.consume(1);
    for n in 0..=5 {
        let mut fork = source.fork();
        fork.consume(n);
        assert_eq!(fork.position(), 1 + n);
        drop(fork);
        assert_eq!(source.position(), 1);
    }
}

#[test]
fn nested_fork_joins_one_level() {
    let data = b"abcdef";
    let source = from_slice(data);
    let mut outer = source.fork();
    let mut inner = outer.fork();
    inner.consume(4);
    outer.join(inner);
    assert_eq!(outer.position(), 4);
    assert_eq!(source.position(), 0);
    assert_eq!(outer.read(10), b"ef");
}

#[test]
fn read_never_consumes() {
    let data = b"xyz";
    let source = from_slice(data);
    assert_eq!(source.read(2), b"xy");
    assert_eq!(source.read(2), b"xy");
    assert_eq!(source.read(0), []);
    assert_eq!(source.position(), 0);
}
