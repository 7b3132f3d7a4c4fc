use ron_batch::batch::Batch;
use ron_batch::frame::Frame;
use ron_batch::ident::Id;
use ron_batch::reduce::{Crdt, ReduceError};

fn id(token: &str) -> Id {
    Id::from_token(token.as_bytes()).unwrap()
}

struct KeepSeed;

impl Crdt for KeepSeed {
    fn reduce(seed: Frame, _history: Vec<Frame>) -> Option<Frame> {
        Some(seed)
    }
}

struct DropAll;

impl Crdt for DropAll {
    fn reduce(_seed: Frame, _history: Vec<Frame>) -> Option<Frame> {
        None
    }
}

fn bodies_of(text: &str) -> Vec<Vec<u8>> {
    let mut b = Batch::parse(text);
    let mut out = Vec::new();
    while let Some(frm) = b.next() {
        out.push(frm.body().clone());
    }
    out
}

#[test]
fn reduce_single_frame_verbatim() {
    let text = "*lww#test@0:0! @1:key'value'";
    let b = Batch::parse(text);
    let mut out: Vec<u8> = Vec::new();
    let warns = b.reduce_all::<KeepSeed, DropAll>(&mut out).unwrap();
    assert_eq!(out, text.as_bytes().to_vec());
    assert!(warns.is_empty());
}

#[test]
fn reduce_unknown_type_concat() {
    let text = "*foo#obj@0:0! *foo#obj@1:0! *foo#obj@2:0!.";
    let frames = bodies_of(text);
    assert_eq!(frames.len(), 3);

    let b = Batch::parse(text);
    let mut out: Vec<u8> = Vec::new();
    let warns = b.reduce_all::<KeepSeed, DropAll>(&mut out).unwrap();

    // Seed (the last frame) first, then the history in order.
    let mut expected: Vec<u8> = Vec::new();
    expected.extend_from_slice(&frames[2]);
    expected.extend_from_slice(&frames[0]);
    expected.extend_from_slice(&frames[1]);
    assert_eq!(out, expected);

    // One warning, naming the object and its unsupported type.
    assert_eq!(warns.len(), 1);
    assert_eq!(warns[0].object, id("obj"));
    assert_eq!(warns[0].ty, id("foo"));
}

#[test]
fn reduce_lww_dispatches_to_reducer() {
    let text = "*lww#a@0:0! *lww#a@1:0! .";
    let frames = bodies_of(text);
    assert_eq!(frames.len(), 2);

    let b = Batch::parse(text);
    let mut out: Vec<u8> = Vec::new();
    b.reduce_all::<KeepSeed, DropAll>(&mut out).unwrap();
    // KeepSeed returns the seed, the last frame of the object.
    assert_eq!(out, frames[1]);

    let b = Batch::parse(text);
    let mut out2: Vec<u8> = Vec::new();
    b.reduce_all::<DropAll, KeepSeed>(&mut out2).unwrap();
    // DropAll merges to nothing: nothing is written.
    assert!(out2.is_empty());
}

#[test]
fn reduce_fails_on_index_failure() {
    let b = Batch::parse("*lww#test@0:0! @1:key'value' *rga#test@2:0! @3:number=1");
    let mut out: Vec<u8> = Vec::new();
    let r = b.reduce_all::<KeepSeed, DropAll>(&mut out);
    let ReduceError::IndexFailed(c) = r.unwrap_err();
    assert_eq!(c.object, id("test"));
    assert_eq!(c.expected, id("lww"));
    assert_eq!(c.found, id("rga"));
    assert!(out.is_empty());
}

#[test]
fn try_index_names_the_conflict() {
    let b = Batch::parse("*lww#test@0:0! @1:key'value' *rga#test@2:0! @3:number=1");
    let c = b.try_index().unwrap_err();
    assert_eq!(c.object, id("test"));
    assert_eq!(c.expected, id("lww"));
    assert_eq!(c.found, id("rga"));
}

#[test]
fn reduce_empty_batch_writes_nothing() {
    let b = Batch::parse("");
    let mut out: Vec<u8> = Vec::new();
    b.reduce_all::<KeepSeed, DropAll>(&mut out).unwrap();
    assert!(out.is_empty());
}

#[test]
fn id_tokens_parse_to_values() {
    // Leading zeros do not change the parsed identifier.
    assert_eq!(Id::from_token("0".as_bytes()), Id::from_token("00".as_bytes()));
    assert_ne!(Id::from_token("lww".as_bytes()), Id::from_token("set".as_bytes()));
    assert_ne!(Id::from_token("test".as_bytes()), Id::from_token("text".as_bytes()));
    assert!(Id::from_token("".as_bytes()).is_none());
}

#[test]
fn literal_scanners_exact_lengths() {
    assert_eq!(ron_batch::scan_for_integer("-42x".as_bytes()), Some(3));
    assert_eq!(ron_batch::scan_for_integer("x42".as_bytes()), None);
    assert_eq!(ron_batch::scan_for_float("3.14e+2 ".as_bytes()), Some(7));
    assert_eq!(ron_batch::scan_for_float("7,".as_bytes()), Some(1));
    assert_eq!(ron_batch::scan_for_float(".5".as_bytes()), None);
    assert_eq!(ron_batch::scan_for_string("value'rest".as_bytes()), Some(5));
    assert_eq!(ron_batch::scan_for_string("never closed".as_bytes()), None);
}
