use symdiff::Tag;

#[test]
fn unwrap_strips_the_side() {
    assert_eq!(Tag::Left(41).unwrap(), 41);
    assert_eq!(Tag::Right("abc").unwrap(), "abc");
}

#[test]
fn value_borrows_regardless_of_side() {
    let l: Tag<u8> = Tag::Left(7);
    let r: Tag<u8> = Tag::Right(9);
    assert_eq!(*l.value(), 7);
    assert_eq!(*r.value(), 9);
}

#[test]
fn each_item_is_tagged_with_exactly_one_side() {
    let l: Tag<i64> = Tag::Left(-1);
    let r: Tag<i64> = Tag::Right(1);
    assert!(l.is_left() && !l.is_right());
    assert!(r.is_right() && !r.is_left());
}
