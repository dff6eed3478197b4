use stitcher::matcher::{anchor_combos, anchors, contains_word, extrap, find_all, Combo, Ctx, Pairing, Stitch, Transform};
use stitcher::Position;

fn ctx<'a>(given: &'a str, founds: Vec<&'a str>) -> Ctx<'a> {
    Ctx {
        disable_exp: false,
        valid: None,
        pos: None,
        exp_pos: None,
        given,
        founds,
    }
}

fn whole_text(c: &Combo) -> String {
    let w = c.stitch.whole();
    format!("{}{}", w.left(), w.right())
}

type Key = (String, String, String, Position, String, String, bool, Option<(String, Position)>);

fn key(c: &Combo) -> Key {
    let p = c.stitch.into_parts();
    (
        whole_text(c),
        p.trans.pair.given.to_string(),
        p.trans.pair.found.to_string(),
        p.trans.pos,
        p.isect.to_string(),
        format!("{}|{}", p.rem_given, p.rem_found),
        c.valid,
        c.expand.map(|(w, pos)| (w.to_string(), pos)),
    )
}

fn keys(v: &[Combo]) -> Vec<Key> {
    v.iter().map(key).collect()
}

fn trans<'a>(given: &'a str, found: &'a str, pos: Position) -> Transform<'a> {
    Transform { pair: Pairing { given, found }, pos }
}

#[test]
fn position_all_in_order() {
    assert_eq!(Position::all(), [Position::Left, Position::Right]);
    assert_eq!(Position::Left.name(), "left");
    assert_eq!(Position::Right.name(), "right");
}

#[test]
fn fracture_left_takes_suffix_of_given_and_prefix_of_found() {
    let t = trans("twink", "knight", Position::Left);
    assert_eq!(t.fracture(1), Some(("k", "twin", "night")));
    assert_eq!(t.fracture(2), None);
}

#[test]
fn fracture_right_takes_prefix_of_given_and_suffix_of_found() {
    let t = trans("twink", "knight", Position::Right);
    assert_eq!(t.fracture(1), Some(("t", "wink", "knigh")));
    let t = trans("lena", "alice", Position::Right);
    assert_eq!(t.fracture(1), None);
    let t = trans("elena", "angel", Position::Right);
    assert_eq!(t.fracture(2), Some(("el", "ena", "ang")));
}

#[test]
fn max_isect_len_is_shorter_length() {
    assert_eq!(Pairing { given: "twink", found: "knight" }.max_isect_len(), 5);
    assert_eq!(Pairing { given: "theoretical", found: "theo" }.max_isect_len(), 4);
}

#[test]
fn stitches_cover_overlaps_below_shorter_length() {
    // "aaa" with "aa": only the overlap of one byte is below the bound of two
    let v = trans("aaa", "aa", Position::Left).stitches();
    assert_eq!(v.len(), 1);
    assert_eq!(v[0].into_parts().isect, "a");
    let v = trans("abab", "abab", Position::Left).stitches();
    let lens: Vec<usize> = v.iter().map(|s| s.into_parts().isect.len()).collect();
    assert_eq!(lens, vec![2]);
}

#[test]
fn stitch_valid_needs_both_remainders_acceptable() {
    let words = vec!["knight", "twin", "night"];
    let s = Stitch::new(trans("twink", "knight", Position::Left), 1).unwrap();
    assert!(s.valid(&words));
    let s = Stitch::new(trans("twink", "knight", Position::Right), 1).unwrap();
    assert!(!s.valid(&words));
    let only_twin = vec!["twin"];
    let s = Stitch::new(trans("twink", "knight", Position::Left), 1).unwrap();
    assert!(!s.valid(&only_twin));
}

#[test]
fn whole_joins_by_alignment() {
    let s = Stitch::new(trans("twink", "knight", Position::Left), 1).unwrap();
    let w = s.whole();
    assert_eq!((w.left(), w.right()), ("twink", "night"));
    let s = Stitch::new(trans("elena", "angel", Position::Right), 2).unwrap();
    let w = s.whole();
    assert_eq!((w.left(), w.right()), ("ang", "elena"));
}

#[test]
fn contains_word_is_exact_membership() {
    let words = vec!["twin", "night"];
    assert!(contains_word(&words, "twin"));
    assert!(!contains_word(&words, "twi"));
    assert!(!contains_word(&words, "twins"));
    assert!(!contains_word(&words, ""));
}

#[test]
fn twink_knight_scenario() {
    let c = ctx("twink", vec!["knight", "twin", "night"]);
    let all = find_all(&c);
    let hit = all.iter().find(|combo| {
        let p = combo.stitch.into_parts();
        p.trans.pair.found == "knight" && p.trans.pos == Position::Left && p.isect == "k"
    });
    let combo = hit.expect("twink and knight stitch at k");
    let p = combo.stitch.into_parts();
    assert_eq!(whole_text(combo), "twinknight");
    assert_eq!(p.rem_given, "twin");
    assert_eq!(p.rem_found, "night");
    assert!(combo.valid);
    assert_eq!(combo.expand, None);
}

#[test]
fn no_overlap_gives_empty_result() {
    let c = ctx("xyz", vec!["abc"]);
    assert!(find_all(&c).is_empty());
}

#[test]
fn short_given_word_gives_empty_result() {
    let c = ctx("a", vec!["a", "ab", "ba"]);
    let mut c = c;
    c.disable_exp = true;
    assert!(find_all(&c).is_empty());
}

#[test]
fn expansion_excludes_given_word() {
    let c = ctx("theo", vec!["theoretical", "theo", "atheo", "cat"]);
    let exps: Vec<(&str, Position)> = extrap(&c);
    assert_eq!(exps, vec![("theoretical", Position::Left), ("atheo", Position::Right)]);
    assert!(exps.iter().all(|(w, _)| *w != "theo"));
}

#[test]
fn expansion_prefers_left_unless_right_is_required() {
    let mut c = ctx("ab", vec!["abab"]);
    assert_eq!(extrap(&c), vec![("abab", Position::Left)]);
    c.exp_pos = Some(Position::Right);
    assert_eq!(extrap(&c), vec![("abab", Position::Right)]);
    c.exp_pos = Some(Position::Left);
    assert_eq!(extrap(&c), vec![("abab", Position::Left)]);
    c.disable_exp = true;
    assert!(extrap(&c).is_empty());
}

#[test]
fn anchors_start_with_given_word() {
    let c = ctx("theo", vec!["cat", "theoretical"]);
    assert_eq!(anchors(&c), vec![("theo", None), ("theoretical", Some(Position::Left))]);
}

#[test]
fn expansion_combos_carry_their_anchor() {
    let c = ctx("theo", vec!["theoretical", "calm"]);
    let all = find_all(&c);
    // "theoretical" and "calm" overlap at "cal"
    let from_exp: Vec<Key> = keys(&all).into_iter().filter(|k| k.7.is_some()).collect();
    assert!(from_exp.iter().all(|k| k.7 == Some(("theoretical".to_string(), Position::Left))));
    assert!(from_exp.iter().any(|k| k.0 == "theoreticalm"));
}

#[test]
fn find_all_is_concatenation_of_anchor_combos() {
    let c = ctx("theo", vec!["theoretical", "other", "heo", "ore"]);
    let mut joined = Vec::new();
    for (w, tag) in anchors(&c) {
        joined.extend(anchor_combos(&c, w, tag));
    }
    assert_eq!(keys(&find_all(&c)), keys(&joined));
}

fn filtered_ctx<'a>(base: &Ctx<'a>, valid: Option<bool>, pos: Option<Position>) -> Ctx<'a> {
    Ctx {
        disable_exp: base.disable_exp,
        valid,
        pos,
        exp_pos: base.exp_pos,
        given: base.given,
        founds: base.founds.clone(),
    }
}

#[test]
fn filters_act_as_conjunction() {
    let base = ctx("twink", vec!["knight", "twin", "night", "ink", "wink", "tw"]);
    let all = keys(&find_all(&base));
    assert!(!all.is_empty());
    for valid in [None, Some(true), Some(false)] {
        for pos in [None, Some(Position::Left), Some(Position::Right)] {
            let got = keys(&find_all(&filtered_ctx(&base, valid, pos)));
            let expect: Vec<Key> = all
                .iter()
                .filter(|k| pos.map_or(true, |p| p == k.3))
                .filter(|k| valid.map_or(true, |v| v == k.6))
                .cloned()
                .collect();
            assert_eq!(got, expect);
        }
    }
}

#[test]
fn find_all_twice_gives_same_result() {
    let c = ctx("twink", vec!["knight", "twin", "night", "ink"]);
    assert_eq!(keys(&find_all(&c)), keys(&find_all(&c)));
}

#[test]
fn valid_only_filter_keeps_twinknight() {
    let mut c = ctx("twink", vec!["knight", "twin", "night"]);
    c.valid = Some(true);
    let got = keys(&find_all(&c));
    assert!(got.iter().all(|k| k.6));
    assert!(got.iter().any(|k| k.0 == "twinknight"));
}

#[test]
fn disabling_expansion_keeps_given_word_combos() {
    let c = ctx("theo", vec!["theoretical", "other", "heo", "ore", "atheo"]);
    let all = keys(&find_all(&c));
    assert!(all.iter().any(|k| k.7.is_some()));
    let mut d = filtered_ctx(&c, None, None);
    d.disable_exp = true;
    let expect: Vec<Key> = all.iter().filter(|k| k.7.is_none()).cloned().collect();
    assert_eq!(keys(&find_all(&d)), expect);
}

#[test]
fn expansion_position_acts_as_filter() {
    let c = ctx("theo", vec!["theoretical", "other", "heo", "ore", "atheo"]);
    let all = keys(&find_all(&c));
    for p in [Position::Left, Position::Right] {
        let mut d = filtered_ctx(&c, None, None);
        d.exp_pos = Some(p);
        let expect: Vec<Key> = all
            .iter()
            .filter(|k| k.7.as_ref().map_or(true, |(_, q)| *q == p))
            .cloned()
            .collect();
        assert_eq!(keys(&find_all(&d)), expect);
    }
}

#[test]
fn reconstruction_of_every_combo() {
    let c = ctx("twink", vec!["knight", "twin", "night", "ink", "wink", "tw"]);
    for combo in find_all(&c) {
        let p = combo.stitch.into_parts();
        let given = p.trans.pair.given;
        let found = p.trans.pair.found;
        let k = p.isect.len();
        let joined = match p.trans.pos {
            Position::Left => format!("{}{}", given, &found[k..]),
            Position::Right => format!("{}{}", &found[..found.len() - k], given),
        };
        assert_eq!(whole_text(&combo), joined);
        let valid = (p.rem_given.is_empty() || c.founds.contains(&p.rem_given))
            && (p.rem_found.is_empty() || c.founds.contains(&p.rem_found));
        assert_eq!(combo.valid, valid);
    }
}

#[test]
fn whole_text_is_stitched_word() {
    let s = Stitch::new(trans("twink", "knight", Position::Left), 1).unwrap();
    assert_eq!(s.whole().text(), "twinknight");
    let s = Stitch::new(trans("elena", "angel", Position::Right), 2).unwrap();
    assert_eq!(s.whole().text(), "angelena");
}

#[test]
fn repeated_dictionary_word_is_searched_twice() {
    let once = ctx("theo", vec!["theoretical", "other"]);
    let twice = ctx("theo", vec!["theoretical", "other", "theoretical"]);
    assert_eq!(extrap(&once).len(), 1);
    assert_eq!(extrap(&twice).len(), 2);
    let once = ctx("twink", vec!["knight"]);
    let twice = ctx("twink", vec!["knight", "knight"]);
    assert!(!find_all(&once).is_empty());
    assert_eq!(find_all(&twice).len(), 2 * find_all(&once).len());
}
