use vstd::prelude::*;

use crate::models::Card;
use crate::seq_facts::{lemma_filter_none, lemma_filter_push, lemma_take_succ};

verus! {

/// The set codes that occur in `cards`, each once, in order of first appearance.
pub open spec fn set_codes(cards: Seq<Card>) -> Seq<Seq<char>>
    decreases cards.len(),
{
    if cards.len() == 0 {
        Seq::empty()
    } else {
        let d = set_codes(cards.drop_last());
        let c = cards.last().set_code@;
        if d.contains(c) {
            d
        } else {
            d.push(c)
        }
    }
}

/// Whether a card belongs to the set with code `code`.
pub open spec fn in_set(code: Seq<char>) -> spec_fn(Card) -> bool {
    |c: Card| c.set_code@ == code
}

/// The cards of `cards` that belong to the set `code`, in their order.
pub open spec fn cards_of_set(cards: Seq<Card>, code: Seq<char>) -> Seq<Card> {
    cards.filter(in_set(code))
}

/// Whether some card of `cards` has the set code `code`.
pub open spec fn has_set(cards: Seq<Card>, code: Seq<char>) -> bool {
    exists|i: int| 0 <= i < cards.len() && (#[trigger] cards[i]).set_code@ == code
}

/// The set codes listed are exactly those of the cards, and none twice.
pub proof fn lemma_set_codes(cards: Seq<Card>)
    ensures
        set_codes(cards).no_duplicates(),
        forall|c: Seq<char>| #[trigger] set_codes(cards).contains(c) == has_set(cards, c),
    decreases cards.len(),
{
    if cards.len() > 0 {
        let s = cards.drop_last();
        lemma_set_codes(s);
        let d = set_codes(s);
        let last = cards.last().set_code@;
        let r = set_codes(cards);
        assert forall|c: Seq<char>| has_set(cards, c) == (has_set(s, c) || c == last) by {
            if has_set(s, c) {
                let i = choose|i: int| 0 <= i < s.len() && (#[trigger] s[i]).set_code@ == c;
                assert(cards[i] == s[i]);
            }
            if has_set(cards, c) && c != last {
                let i = choose|i: int| 0 <= i < cards.len() && (#[trigger] cards[i]).set_code@ == c;
                assert(s[i] == cards[i]);
            }
            if c == last {
                assert(cards[cards.len() - 1].set_code@ == c);
            }
        }
        if !d.contains(last) {
            assert(r == d.push(last));
            assert forall|c: Seq<char>| #[trigger] r.contains(c) == (d.contains(c) || c == last) by {
                if d.contains(c) {
                    let l = choose|l: int| 0 <= l < d.len() && d[l] == c;
                    assert(r[l] == c);
                }
                if r.contains(c) && c != last {
                    let l = choose|l: int| 0 <= l < r.len() && r[l] == c;
                    assert(d[l] == c);
                }
                if c == last {
                    assert(r[d.len() as int] == c);
                }
            }
            assert forall|a: int, b: int| 0 <= a < r.len() && 0 <= b < r.len() && a != b
                implies r[a] != r[b] by {
                if a < d.len() && b < d.len() {
                } else if a < d.len() {
                    assert(d.contains(r[a]));
                } else {
                    assert(d.contains(r[b]));
                }
            }
        } else {
            assert forall|c: Seq<char>| #[trigger] r.contains(c) == (d.contains(c) || c == last) by {
            }
        }
    }
}

/// Looks for `code` among `codes`.
fn find_code(codes: &Vec<String>, code: &String) -> (r: Option<usize>)
    ensures
        match r {
            Some(j) => j < codes@.len() && codes@[j as int]@ == code@,
            None => forall|l: int| 0 <= l < codes@.len() ==> (#[trigger] codes@[l])@ != code@,
        },
{
    let mut j: usize = 0;
    while j < codes.len()
        invariant
            0 <= j <= codes@.len(),
            forall|l: int| 0 <= l < j ==> (#[trigger] codes@[l])@ != code@,
        decreases codes@.len() - j,
    {
        if codes[j] == *code {
            return Some(j);
        }
        j = j + 1;
    }
    None
}

/// Cards grouped by set code: one group per set code, in order of the
/// first card of each set; each group holds that set's cards in order.
pub struct CardGroups {
    codes: Vec<String>,
    members: Vec<Vec<Card>>,
}

impl View for CardGroups {
    type V = Seq<(Seq<char>, Seq<Card>)>;

    closed spec fn view(&self) -> Seq<(Seq<char>, Seq<Card>)> {
        Seq::new(self.codes@.len(), |i: int| (self.codes@[i]@, self.members@[i]@))
    }
}

impl CardGroups {
    #[verifier::type_invariant]
    spec fn well_formed(self) -> bool {
        &&& self.codes@.len() == self.members@.len()
        &&& forall|a: int, b: int|
            0 <= a < self.codes@.len() && 0 <= b < self.codes@.len() && a != b
                ==> (#[trigger] self.codes@[a])@ != (#[trigger] self.codes@[b])@
    }

    /// Number of groups, that is of distinct set codes.
    pub fn len(&self) -> (n: usize)
        ensures
            n == self@.len(),
    {
        self.codes.len()
    }

    /// The cards of the set `code`, if any card has that set code.
    pub fn get(&self, code: &str) -> (r: Option<&Vec<Card>>)
        ensures
            match r {
                Some(v) => exists|i: int|
                    0 <= i < self@.len() && (#[trigger] self@[i]).0 == code@ && self@[i].1 == v@,
                None => forall|i: int| 0 <= i < self@.len() ==> (#[trigger] self@[i]).0 != code@,
            },
    {
        proof {
            use_type_invariant(self);
        }
        let mut j: usize = 0;
        while j < self.codes.len()
            invariant
                0 <= j <= self.codes@.len(),
                self.codes@.len() == self.members@.len(),
                forall|l: int| 0 <= l < j ==> (#[trigger] self.codes@[l])@ != code@,
            decreases self.codes@.len() - j,
        {
            if crate::string_map::str_eq(self.codes[j].as_str(), code) {
                assert(self@[j as int].0 == code@);
                return Some(&self.members[j]);
            }
            j = j + 1;
        }
        assert forall|i: int| 0 <= i < self@.len() implies (#[trigger] self@[i]).0 != code@ by {
            assert(self@[i].0 == self.codes@[i]@);
        }
        None
    }

    /// Splits the groups into their set codes and their members.
    pub fn into_parts(self) -> (r: (Vec<String>, Vec<Vec<Card>>))
        ensures
            r.0@.len() == self@.len(),
            r.1@.len() == self@.len(),
            forall|i: int|
                0 <= i < self@.len() ==> (#[trigger] r.0@[i])@ == self@[i].0 && r.1@[i]@
                    == self@[i].1,
    {
        proof {
            use_type_invariant(&self);
        }
        (self.codes, self.members)
    }
}

/// The groups of `cards`, one per set code in order of first appearance.
pub open spec fn groups_of(cards: Seq<Card>) -> Seq<Seq<Card>> {
    set_codes(cards).map_values(|code: Seq<char>| cards_of_set(cards, code))
}

/// Adding a card of a set already seen adds it to the end of that set's group.
proof fn lemma_group_step_seen(pre: Seq<Card>, x: Card, j: int)
    requires
        0 <= j < set_codes(pre).len(),
        set_codes(pre)[j] == x.set_code@,
    ensures
        set_codes(pre.push(x)) == set_codes(pre),
        groups_of(pre.push(x)) == groups_of(pre).update(j, groups_of(pre)[j].push(x)),
{
    let post = pre.push(x);
    let d = set_codes(pre);
    lemma_set_codes(pre);
    assert(post.drop_last() =~= pre);
    assert(d.contains(x.set_code@));
    assert(set_codes(post) == d);
    assert forall|k: int| 0 <= k < d.len() implies #[trigger] groups_of(post)[k] == groups_of(
        pre,
    ).update(j, groups_of(pre)[j].push(x))[k] by {
        lemma_filter_push(pre, x, in_set(d[k]));
        if k != j {
            assert(d[k] != d[j]);
        }
    }
    assert(groups_of(post) =~= groups_of(pre).update(j, groups_of(pre)[j].push(x)));
}

/// Adding a card of a new set opens a group holding just that card.
proof fn lemma_group_step_new(pre: Seq<Card>, x: Card)
    requires
        !set_codes(pre).contains(x.set_code@),
    ensures
        set_codes(pre.push(x)) == set_codes(pre).push(x.set_code@),
        groups_of(pre.push(x)) == groups_of(pre).push(seq![x]),
{
    let post = pre.push(x);
    let d = set_codes(pre);
    let c = x.set_code@;
    lemma_set_codes(pre);
    assert(post.drop_last() =~= pre);
    assert(set_codes(post) == d.push(c));
    assert forall|k: int| 0 <= k < d.len() + 1 implies #[trigger] groups_of(post)[k]
        == groups_of(pre).push(seq![x])[k] by {
        if k < d.len() {
            lemma_filter_push(pre, x, in_set(d[k]));
            assert(d[k] != c) by {
                assert(d.contains(d[k]));
            }
        } else {
            assert forall|m: int| 0 <= m < pre.len() implies !in_set(c)(#[trigger] pre[m]) by {
                if in_set(c)(pre[m]) {
                    assert(has_set(pre, c));
                }
            }
            lemma_filter_none(pre, in_set(c));
            lemma_filter_push(pre, x, in_set(c));
            assert(cards_of_set(post, c) =~= seq![x]);
        }
    }
    assert(groups_of(post) =~= groups_of(pre).push(seq![x]));
}

/// Groups cards by their set code.
pub fn group_by_set(cards: &Vec<Card>) -> (g: CardGroups)
    ensures
        g@.len() == set_codes(cards@).len(),
        forall|i: int|
            0 <= i < g@.len() ==> (#[trigger] g@[i]).0 == set_codes(cards@)[i] && g@[i].1
                == cards_of_set(cards@, set_codes(cards@)[i]),
{
    let mut codes: Vec<String> = Vec::new();
    let mut members: Vec<Vec<Card>> = Vec::new();
    let n = cards.len();
    proof {
        assert(cards@.take(0) =~= Seq::<Card>::empty());
        assert(codes@.map_values(|c: String| c@) =~= set_codes(cards@.take(0)));
        assert(members@.map_values(|v: Vec<Card>| v@) =~= groups_of(cards@.take(0)));
    }
    for i in 0..n
        invariant
            n == cards@.len(),
            codes@.len() == members@.len(),
            codes@.map_values(|c: String| c@) == set_codes(cards@.take(i as int)),
            members@.map_values(|v: Vec<Card>| v@) == groups_of(cards@.take(i as int)),
    {
        let card = &cards[i];
        let ghost pre = cards@.take(i as int);
        proof {
            lemma_take_succ(cards@, i as int);
        }
        match find_code(&codes, &card.set_code) {
            Some(j) => {
                proof {
                    assert(codes@.map_values(|c: String| c@)[j as int] == codes@[j as int]@);
                    lemma_group_step_seen(pre, *card, j as int);
                }
                let ghost old_members = members@;
                members[j].push(card.clone());
                proof {
                    assert(old_members.map_values(|v: Vec<Card>| v@)[j as int]
                        == old_members[j as int]@);
                    assert(members@.map_values(|v: Vec<Card>| v@) =~= groups_of(pre).update(
                        j as int,
                        groups_of(pre)[j as int].push(*card),
                    ));
                }
            },
            None => {
                proof {
                    assert(!set_codes(pre).contains(card.set_code@)) by {
                        if set_codes(pre).contains(card.set_code@) {
                            let l = choose|l: int|
                                0 <= l < set_codes(pre).len() && set_codes(pre)[l]
                                    == card.set_code@;
                            assert(codes@.map_values(|c: String| c@)[l] == codes@[l]@);
                        }
                    }
                    lemma_group_step_new(pre, *card);
                }
                let ghost old_codes = codes@;
                let ghost old_members = members@;
                let mut first: Vec<Card> = Vec::new();
                first.push(card.clone());
                assert(first@ =~= seq![*card]);
                codes.push(card.set_code.clone());
                members.push(first);
                proof {
                    assert(codes@.map_values(|c: String| c@) =~= old_codes.map_values(
                        |c: String| c@,
                    ).push(card.set_code@));
                    assert(members@.map_values(|v: Vec<Card>| v@) =~= old_members.map_values(
                        |v: Vec<Card>| v@,
                    ).push(seq![*card]));
                }
            },
        }
    }
    proof {
        assert(cards@.take(n as int) =~= cards@);
        lemma_set_codes(cards@);
        assert forall|a: int| 0 <= a < codes@.len() implies (#[trigger] codes@[a])@ == set_codes(
            cards@,
        )[a] by {
            assert(codes@.map_values(|c: String| c@)[a] == codes@[a]@);
        }
    }
    let g = CardGroups { codes, members };
    assert forall|i: int| 0 <= i < g@.len() implies (#[trigger] g@[i]).0 == set_codes(cards@)[i]
        && g@[i].1 == cards_of_set(cards@, set_codes(cards@)[i]) by {
        assert(codes@.map_values(|c: String| c@)[i] == codes@[i]@);
        assert(members@.map_values(|v: Vec<Card>| v@)[i] == members@[i]@);
    }
    g
}

/// The total number of cards of `cards` in the sets `codes`.
pub open spec fn group_sizes(cards: Seq<Card>, codes: Seq<Seq<char>>) -> nat
    decreases codes.len(),
{
    if codes.len() == 0 {
        0
    } else {
        group_sizes(cards, codes.drop_last()) + cards_of_set(cards, codes.last()).len()
    }
}

/// One more card adds one to the total of the distinct sets that include its set.
proof fn lemma_group_sizes_push(s: Seq<Card>, x: Card, codes: Seq<Seq<char>>)
    requires
        codes.no_duplicates(),
    ensures
        group_sizes(s.push(x), codes) == group_sizes(s, codes) + (if codes.contains(x.set_code@) {
            1int
        } else {
            0int
        }),
    decreases codes.len(),
{
    if codes.len() > 0 {
        let c0 = codes.drop_last();
        assert(c0.no_duplicates());
        lemma_group_sizes_push(s, x, c0);
        lemma_filter_push(s, x, in_set(codes.last()));
        if codes.contains(x.set_code@) {
            let i = choose|i: int| 0 <= i < codes.len() && codes[i] == x.set_code@;
            if i < codes.len() - 1 {
                assert(c0[i] == x.set_code@);
                assert(codes.last() != x.set_code@);
            } else {
                assert(!c0.contains(x.set_code@)) by {
                    if c0.contains(x.set_code@) {
                        let j = choose|j: int| 0 <= j < c0.len() && c0[j] == x.set_code@;
                        assert(codes[j] == codes[i]);
                    }
                }
            }
        } else {
            assert(!c0.contains(x.set_code@)) by {
                if c0.contains(x.set_code@) {
                    let j = choose|j: int| 0 <= j < c0.len() && c0[j] == x.set_code@;
                    assert(codes[j] == x.set_code@);
                }
            }
            assert(codes.last() != x.set_code@) by {
                assert(codes[codes.len() - 1] == codes.last());
            }
        }
    }
}

/// Grouping by set splits the cards without losing or repeating any: the
/// groups' sizes add up to the number of cards.
pub proof fn lemma_groups_partition(cards: Seq<Card>)
    ensures
        group_sizes(cards, set_codes(cards)) == cards.len(),
    decreases cards.len(),
{
    if cards.len() > 0 {
        let s = cards.drop_last();
        let x = cards.last();
        let d = set_codes(s);
        lemma_groups_partition(s);
        lemma_set_codes(s);
        assert(s.push(x) =~= cards);
        lemma_group_sizes_push(s, x, d);
        if !d.contains(x.set_code@) {
            let c = x.set_code@;
            assert(d.push(c).drop_last() =~= d);
            assert forall|m: int| 0 <= m < s.len() implies !in_set(c)(#[trigger] s[m]) by {
                if in_set(c)(s[m]) {
                    assert(has_set(s, c));
                }
            }
            lemma_filter_none(s, in_set(c));
            lemma_filter_push(s, x, in_set(c));
        }
    }
}

} // verus!
