use ron_batch::batch::Batch;
use ron_batch::ident::Id;

#[test]
fn batch_parse_none() {
    let mut b1 = Batch::parse("");

    assert!(b1.next().is_none());
    assert!(b1.next().is_none());
}

#[test]
fn batch_parse_no_hdr() {
    let mut b1 = Batch::parse("*a#a@a:0,");

    assert!(b1.next().is_some());
    assert!(b1.next().is_none());
}

#[test]
fn batch_parse_multi() {
    let b1 = Batch::parse("*lww#test@0:0! @1:key'value' @2:number=1 *rga#text@3:0'T'! *rga#text@6:3, @4'e' @5'x' @6't' *lww#more:a=1;.");

    let mut show = b1.clone();
    while let Some(frm) = show.next() {
        println!("frm {}", String::from_utf8(frm.body().clone()).unwrap());
    }
    let mut b = b1;
    let mut count = 0;
    while b.next().is_some() {
        count += 1;
    }
    assert_eq!(count, 3);
}

#[test]
fn index_one_obj() {
    let b1 = Batch::parse("*lww#test@0:0! @1:key'value' *lww#test@2:0! @3:number=1");
    let idx = b1.index().unwrap();
    let obj = Id::from_token("test".as_bytes()).unwrap();
    let ty = Id::from_token("lww".as_bytes()).unwrap();

    assert_eq!(idx.len(), 1);
    let ent = idx.iter().find(|e| e.object == obj).unwrap();
    assert_eq!(ent.ty, ty);
    assert_eq!(ent.frames.len(), 2);
}

#[test]
fn index_multiple_obj() {
    let b1 = Batch::parse("*lww#test@0:0! @1:key'value' @2:number=1 *rga#text@3:0'T'! *rga#text@6:3, @4'e' @5'x' @6't' *lww#more:a=1;.");
    let idx = b1.index().unwrap();
    let obj1 = Id::from_token("test".as_bytes()).unwrap();
    let obj2 = Id::from_token("text".as_bytes()).unwrap();
    let ty1 = Id::from_token("lww".as_bytes()).unwrap();
    let ty2 = Id::from_token("rga".as_bytes()).unwrap();

    assert_eq!(idx.len(), 2);
    let ent1 = idx.iter().find(|e| e.object == obj1).unwrap();
    assert_eq!(ent1.ty, ty1);
    assert_eq!(ent1.frames.len(), 1);
    let ent2 = idx.iter().find(|e| e.object == obj2).unwrap();
    assert_eq!(ent2.ty, ty2);
    assert_eq!(ent2.frames.len(), 1);
}

#[test]
fn index_diff_type() {
    let b1 = Batch::parse("*lww#test@0:0! @1:key'value' *rga#test@2:0! @3:number=1");

    assert!(b1.index().is_none());
}

#[test]
fn index_empty_batch() {
    let b1 = Batch::parse("");
    let idx = b1.index().unwrap();

    assert!(idx.is_empty());
}

#[test]
fn frame_peek_headers() {
    let mut b = Batch::parse("*lww#test@0:0! @1:key'value'");
    let frm = b.next().unwrap();
    let op = frm.peek().unwrap();
    assert_eq!(op.ty, Id::from_token("lww".as_bytes()).unwrap());
    assert_eq!(op.object, Id::from_token("test".as_bytes()).unwrap());
    assert_eq!(op.event, Id::from_token("0".as_bytes()).unwrap());
    assert_eq!(op.location, Id::from_token("0".as_bytes()));
}

#[test]
fn frame_peek_missing_event() {
    // A first group without an `@` event marker has no header.
    let mut b = Batch::parse("*lww#more:a=1;.");
    let frm = b.next().unwrap();
    assert!(frm.peek().is_none());
}

#[test]
fn scan_finds_first_frame_span() {
    assert_eq!(Batch::scan("*lww#test@0:0! rest".as_bytes()), Some((0, 14)));
    // A frame group that never reaches a terminator is no frame.
    assert_eq!(Batch::scan("*a#a@a:0,".as_bytes()), None);
    assert_eq!(Batch::scan("plain text".as_bytes()), None);
}

#[test]
fn scan_aborts_on_unexpected_byte() {
    // An unexpected character where an atom is expected aborts the
    // scan, even with a terminator further on.
    assert_eq!(Batch::scan("*a?*b!".as_bytes()), None);
    assert_eq!(Batch::scan("*a&!".as_bytes()), None);
}

#[test]
fn scan_uuid_token_run() {
    assert_eq!(Batch::scan_uuid("lww#rest".as_bytes()), 3);
    assert_eq!(Batch::scan_uuid("1s9L3-~_ x".as_bytes()), 8);
    assert_eq!(Batch::scan_uuid("!abc".as_bytes()), 0);
}
