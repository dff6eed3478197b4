use stitcher::ext::StrExt;

#[test]
fn rsplit_at() {
    let expects = [("abc", ""), ("ab", "c"), ("a", "bc"), ("", "abc")];

    for i in 0..3 {
        let got = "abc".rsplit_at(i);
        let expect = expects[i];

        assert_eq!(got, expect)
    }
}

#[test]
fn rsplit_at_mut() {
    let expects = [("abc", ""), ("ab", "c"), ("a", "bc"), ("", "abc")];
    let mut raw = "abc".to_string();

    for i in 0..3 {
        let got = {
            let (a_mut, b_mut) = raw.rsplit_at_mut(i);
            (&*a_mut, &*b_mut)
        };
        let expect = expects[i];

        assert_eq!(got, expect)
    }
}

#[test]
fn rsplit_at_whole_length() {
    assert_eq!("abc".rsplit_at(3), ("", "abc"));
}

#[test]
fn rsplit_at_mut_leaves_string_unchanged() {
    let mut raw = "abc".to_string();
    {
        let (a, b) = raw.rsplit_at_mut(1);
        assert_eq!((&*a, &*b), ("ab", "c"));
    }
    assert_eq!(raw, "abc");
}
