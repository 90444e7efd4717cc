use vstd::prelude::*;

use crate::grouping::{cards_of_set, group_by_set, has_set, lemma_set_codes, set_codes};
use crate::models::{
    card_from_scryfall, clone_opt_string, Card, CardSet, CardSetView, ScryfallCard, ScryfallSet,
    SetsResponse,
};
use crate::seq_facts::{lemma_filter_push, lemma_take_succ};
use crate::sorting::{
    lemma_stable_sort_exists, lemma_stable_sort_map_first,
    lemma_stable_sort_members, map_first, sort_by_rank, stable_sort_by_rank,
};

verus! {

/// Whether some card of `mine` has the collector number `number`.
pub open spec fn owns(mine: Seq<Card>, number: Seq<char>) -> bool {
    exists|i: int| 0 <= i < mine.len() && (#[trigger] mine[i]).collector_number@ == number
}

/// `c`, marked as collected exactly when the user has a card with its
/// collector number.
pub open spec fn marked(c: Card, mine: Seq<Card>) -> Card {
    Card {
        name: c.name,
        set_code: c.set_code,
        collector_number: c.collector_number,
        scryfall_id: c.scryfall_id,
        collected: Some(owns(mine, c.collector_number@)),
        image: c.image,
    }
}

/// The rank a card is ordered by; a card without a rank is alone in its set.
pub open spec fn rank_or_zero(r: Option<u64>) -> u64 {
    match r {
        Some(k) => k,
        None => 0,
    }
}

/// Every database card as a card, each with its rank.
pub open spec fn bulk_entries(bulk: Seq<ScryfallCard>, ranks: Seq<Option<u64>>) -> Seq<
    (Card, Option<u64>),
> {
    Seq::new(bulk.len(), |i: int| (card_from_scryfall(bulk[i]), ranks[i]))
}

/// Whether an entry is a card of the set `code`.
pub open spec fn entry_in_set(code: Seq<char>) -> spec_fn((Card, Option<u64>)) -> bool {
    |e: (Card, Option<u64>)| e.0.set_code@ == code
}

/// The entries of the set `code`, marked against `mine` and ranked.
pub open spec fn ranked_set_cards(entries: Seq<(Card, Option<u64>)>, mine: Seq<Card>) -> Seq<
    (Card, u64),
> {
    entries.map_values(|e: (Card, Option<u64>)| (marked(e.0, mine), rank_or_zero(e.1)))
}

/// Whether a card is marked as collected.
pub open spec fn is_collected(c: Card) -> bool {
    c.collected == Some(true)
}

/// Number of cards marked as collected.
pub open spec fn collected_count(cards: Seq<Card>) -> nat {
    cards.filter(|c: Card| is_collected(c)).len()
}

/// The name of the first set of `sets` with code `code`, if there is one.
pub open spec fn set_name(sets: Seq<ScryfallSet>, code: Seq<char>) -> Option<String>
    decreases sets.len(),
{
    if sets.len() == 0 {
        None
    } else if sets[0].code@ == code {
        sets[0].name
    } else {
        set_name(sets.drop_first(), code)
    }
}

/// The report of the set `code` for the user's cards `mine` of that set:
/// the set's cards marked and in rank order, and the two counts.
pub open spec fn report_of(
    entries: Seq<(Card, Option<u64>)>,
    sets: Seq<ScryfallSet>,
    code: Seq<char>,
    mine: Seq<Card>,
) -> CardSetView {
    let cards = stable_sort_by_rank(
        ranked_set_cards(entries.filter(entry_in_set(code)), mine),
    ).map_values(|e: (Card, u64)| e.0);
    CardSetView {
        code,
        name: set_name(sets, code),
        cards,
        collected_cards: mine,
        set_count: cards.len(),
        collected_count: collected_count(cards),
    }
}

/// Turns the database cards into cards, each paired with its rank.
fn bulk_to_entries(bulk: Vec<ScryfallCard>, ranks: &Vec<Option<u64>>) -> (r: Vec<
    (Card, Option<u64>),
>)
    requires
        ranks@.len() == bulk@.len(),
    ensures
        r@ == bulk_entries(bulk@, ranks@),
{
    let ghost b = bulk@;
    let mut out: Vec<(Card, Option<u64>)> = Vec::new();
    let mut k: usize = 0;
    let n = ranks.len();
    for card in it: bulk.into_iter()
        invariant
            ranks@.len() == b.len(),
            n == b.len(),
            it.seq() == b,
            k == it.index(),
            out@.len() == k,
            forall|j: int| 0 <= j < k ==> (#[trigger] out@[j]) == (card_from_scryfall(b[j]), ranks@[j]),
    {
        let r = ranks[k];
        out.push((Card::from(card), r));
        k = k + 1;
    }
    assert(out@ =~= bulk_entries(b, ranks@));
    out
}

/// The entries of the set `code`, in order.
fn select_set(entries: &Vec<(Card, Option<u64>)>, code: &String) -> (r: Vec<(Card, Option<u64>)>)
    ensures
        r@ == entries@.filter(entry_in_set(code@)),
{
    let mut out: Vec<(Card, Option<u64>)> = Vec::new();
    let n = entries.len();
    for i in 0..n
        invariant
            n == entries@.len(),
            out@ == entries@.take(i as int).filter(entry_in_set(code@)),
    {
        proof {
            lemma_take_succ(entries@, i as int);
            lemma_filter_push(entries@.take(i as int), entries@[i as int], entry_in_set(code@));
        }
        if entries[i].0.set_code == *code {
            out.push((entries[i].0.clone(), entries[i].1));
        }
    }
    assert(entries@.take(n as int) =~= entries@);
    out
}

/// Whether some card of `mine` has the collector number `number`.
fn owns_number(mine: &Vec<Card>, number: &String) -> (b: bool)
    ensures
        b == owns(mine@, number@),
        b == exists|i: int|
            0 <= i < mine@.len() && (#[trigger] mine@[i]).collector_number@ == number@,
{
    let n = mine.len();
    for i in 0..n
        invariant
            n == mine@.len(),
            forall|j: int| 0 <= j < i ==> (#[trigger] mine@[j]).collector_number@ != number@,
    {
        if mine[i].collector_number == *number {
            return true;
        }
    }
    false
}

/// Marks each card against `mine` and replaces a missing rank by zero.
fn mark_and_rank(entries: Vec<(Card, Option<u64>)>, mine: &Vec<Card>) -> (r: Vec<(Card, u64)>)
    ensures
        r@ == ranked_set_cards(entries@, mine@),
{
    let ghost e = entries@;
    let mut out: Vec<(Card, u64)> = Vec::new();
    for entry in it: entries.into_iter()
        invariant
            it.seq() == e,
            out@.len() == it.index(),
            forall|j: int|
                0 <= j < it.index() ==> (#[trigger] out@[j]) == (
                    marked(e[j].0, mine@),
                    rank_or_zero(e[j].1),
                ),
    {
        let (mut card, rank) = entry;
        let owned = owns_number(mine, &card.collector_number);
        card.collected = Some(owned);
        let k = match rank {
            Some(k) => k,
            None => 0,
        };
        out.push((card, k));
    }
    assert(out@ =~= ranked_set_cards(e, mine@));
    out
}

/// Drops the ranks, keeping the order.
fn strip_ranks<T>(v: Vec<(T, u64)>) -> (r: Vec<T>)
    ensures
        r@ == v@.map_values(|e: (T, u64)| e.0),
{
    let ghost s = v@;
    let mut out: Vec<T> = Vec::new();
    for entry in it: v.into_iter()
        invariant
            it.seq() == s,
            out@.len() == it.index(),
            forall|j: int| 0 <= j < it.index() ==> (#[trigger] out@[j]) == s[j].0,
    {
        out.push(entry.0);
    }
    assert(out@ =~= s.map_values(|e: (T, u64)| e.0));
    out
}

/// Number of cards marked as collected.
fn count_collected(cards: &Vec<Card>) -> (c: usize)
    ensures
        c == collected_count(cards@),
{
    let n = cards.len();
    let mut c: usize = 0;
    for i in 0..n
        invariant
            n == cards@.len(),
            c == cards@.take(i as int).filter(|c: Card| is_collected(c)).len(),
            c <= i,
    {
        proof {
            lemma_take_succ(cards@, i as int);
            lemma_filter_push(cards@.take(i as int), cards@[i as int], |c: Card| is_collected(c));
        }
        if cards[i].collected == Some(true) {
            c = c + 1;
        }
    }
    assert(cards@.take(n as int) =~= cards@);
    c
}

/// The name of the first set listed with code `code`.
fn find_set_name(sets: &Vec<ScryfallSet>, code: &String) -> (r: Option<String>)
    ensures
        r == set_name(sets@, code@),
{
    let n = sets.len();
    assert(sets@.skip(0) =~= sets@);
    for i in 0..n
        invariant
            n == sets@.len(),
            set_name(sets@, code@) == set_name(sets@.skip(i as int), code@),
    {
        assert(sets@.skip(i as int)[0] == sets@[i as int]);
        if sets[i].code == *code {
            return clone_opt_string(&sets[i].name);
        }
        assert(sets@.skip(i as int).drop_first() =~= sets@.skip(i + 1));
    }
    None
}

/// Builds the report of the set `code` for the user's cards `mine`.
fn build_report(
    code: String,
    mine: Vec<Card>,
    entries: &Vec<(Card, Option<u64>)>,
    sets: &Vec<ScryfallSet>,
) -> (r: CardSet)
    ensures
        r@ == report_of(entries@, sets@, code@, mine@),
{
    let set_entries = select_set(entries, &code);
    let ranked = mark_and_rank(set_entries, &mine);
    let sorted = sort_by_rank(ranked);
    let cards = strip_ranks(sorted);
    let collected_count = count_collected(&cards);
    let name = find_set_name(sets, &code);
    let set_count = cards.len();
    CardSet { code, name, cards, collected_cards: mine, set_count, collected_count }
}

/// Whether report `a` is strictly more complete than report `b`: a larger
/// share of its cards is collected.
pub open spec fn more_complete(a: CardSetView, b: CardSetView) -> bool {
    a.collected_count * b.set_count > b.collected_count * a.set_count
}

/// The reports strictly more complete than `b`.
pub open spec fn more_complete_than(b: CardSetView) -> spec_fn(CardSetView) -> bool {
    |a: CardSetView| more_complete(a, b)
}

/// How many reports are strictly more complete than report `i`.
pub open spec fn completion_rank(reports: Seq<CardSetView>, i: int) -> nat {
    reports.filter(more_complete_than(reports[i])).len()
}

/// Each report with its completion rank.
pub open spec fn ranked_reports(reports: Seq<CardSetView>) -> Seq<(CardSetView, u64)> {
    Seq::new(reports.len(), |i: int| (reports[i], completion_rank(reports, i) as u64))
}

/// The report of each set of the user's cards, in order of the first card
/// of each set.
pub open spec fn set_reports(
    user: Seq<Card>,
    bulk: Seq<ScryfallCard>,
    ranks: Seq<Option<u64>>,
    sets: Seq<ScryfallSet>,
) -> Seq<CardSetView> {
    set_codes(user).map_values(
        |code: Seq<char>| report_of(bulk_entries(bulk, ranks), sets, code, cards_of_set(user, code)),
    )
}

/// The reports of all the user's sets, most complete first; reports equally
/// complete keep the order of the first card of each set.
pub open spec fn processed(
    user: Seq<Card>,
    bulk: Seq<ScryfallCard>,
    ranks: Seq<Option<u64>>,
    sets: Seq<ScryfallSet>,
) -> Seq<CardSetView> {
    stable_sort_by_rank(ranked_reports(set_reports(user, bulk, ranks, sets))).map_values(
        |e: (CardSetView, u64)| e.0,
    )
}

/// Whether every entry has a rank.
pub open spec fn all_ranked(f: Seq<(Card, Option<u64>)>) -> bool {
    forall|j: int| 0 <= j < f.len() ==> (#[trigger] f[j]).1 is Some
}

/// The inputs on which the reports can be ordered: in a set of the user's
/// with two or more database cards every card has a rank, and when the user
/// has cards of two or more sets, each of those sets has a database card.
pub open spec fn can_process(user: Seq<Card>, bulk: Seq<ScryfallCard>, ranks: Seq<Option<u64>>) -> bool {
    let entries = bulk_entries(bulk, ranks);
    let codes = set_codes(user);
    &&& forall|i: int|
        0 <= i < codes.len() ==> (#[trigger] entries.filter(entry_in_set(codes[i]))).len() >= 2
            ==> all_ranked(entries.filter(entry_in_set(codes[i])))
    &&& codes.len() >= 2 ==> forall|i: int|
        0 <= i < codes.len() ==> (#[trigger] entries.filter(entry_in_set(codes[i]))).len() > 0
}

proof fn lemma_product_fits(a: usize, b: usize)
    ensures
        (a as u128) * (b as u128) <= u128::MAX,
{
    assert((a as u128) * (b as u128) <= u128::MAX) by (nonlinear_arith)
        requires
            a <= u64::MAX,
            b <= u64::MAX,
    ;
}

/// Whether report `a` is strictly more complete than report `b`.
fn is_more_complete(a: &CardSet, b: &CardSet) -> (r: bool)
    ensures
        r == more_complete(a@, b@),
{
    proof {
        lemma_product_fits(a.collected_count, b.set_count);
        lemma_product_fits(b.collected_count, a.set_count);
    }
    let x = (a.collected_count as u128) * (b.set_count as u128);
    let y = (b.collected_count as u128) * (a.set_count as u128);
    x > y
}

/// The completion rank of each report.
fn completion_ranks(reports: &Vec<CardSet>) -> (r: Vec<u64>)
    ensures
        r@.len() == reports@.len(),
        forall|i: int|
            0 <= i < r@.len() ==> (#[trigger] r@[i]) == completion_rank(
                reports@.map_values(|s: CardSet| s@),
                i,
            ) as u64,
{
    let ghost views = reports@.map_values(|s: CardSet| s@);
    let n = reports.len();
    let mut out: Vec<u64> = Vec::new();
    for i in 0..n
        invariant
            n == reports@.len(),
            views == reports@.map_values(|s: CardSet| s@),
            out@.len() == i,
            forall|m: int|
                0 <= m < i ==> (#[trigger] out@[m]) == completion_rank(views, m) as u64,
    {
        let ghost pred = more_complete_than(views[i as int]);
        let mut c: u64 = 0;
        for j in 0..n
            invariant
                n == reports@.len(),
                0 <= i < n,
                views == reports@.map_values(|s: CardSet| s@),
                c == views.take(j as int).filter(pred).len(),
                c <= j,
                pred == more_complete_than(views[i as int]),
        {
            proof {
                lemma_take_succ(views, j as int);
                lemma_filter_push(views.take(j as int), views[j as int], pred);
            }
            if is_more_complete(&reports[j], &reports[i]) {
                c = c + 1;
            }
        }
        assert(views.take(n as int) =~= views);
        out.push(c);
    }
    out
}

/// Pairs each report with its rank.
fn attach_ranks(reports: Vec<CardSet>, ranks: &Vec<u64>) -> (r: Vec<(CardSet, u64)>)
    requires
        ranks@.len() == reports@.len(),
    ensures
        r@.len() == reports@.len(),
        forall|i: int| 0 <= i < r@.len() ==> (#[trigger] r@[i]) == (reports@[i], ranks@[i]),
{
    let ghost s = reports@;
    let n = ranks.len();
    let mut out: Vec<(CardSet, u64)> = Vec::new();
    let mut k: usize = 0;
    for report in it: reports.into_iter()
        invariant
            it.seq() == s,
            ranks@.len() == s.len(),
            n == s.len(),
            k == it.index(),
            out@.len() == k,
            forall|j: int| 0 <= j < k ==> (#[trigger] out@[j]) == (s[j], ranks@[j]),
    {
        out.push((report, ranks[k]));
        k = k + 1;
    }
    out
}

/// Builds the completion report of every set the user has cards of, most
/// complete first.
///
/// `cards` are the user's cards; `bulk_cards` are the cards of the card
/// database, and `bulk_ranks` holds, for each of them, the rank its
/// collector number sorts by (`None` for one that sorts with nothing);
/// `set_data` lists the sets of the database. The report of a set holds
/// the set's database cards in rank order, those of equal rank in database
/// order, each marked as collected when the user has a card of that set
/// with the same collector number; it names the set after the first listed
/// set with its code, and counts its cards and the collected ones.
pub fn process_data(
    cards: Vec<Card>,
    bulk_cards: Vec<ScryfallCard>,
    bulk_ranks: Vec<Option<u64>>,
    set_data: &SetsResponse,
) -> (sets: Vec<CardSet>)
    requires
        bulk_ranks@.len() == bulk_cards@.len(),
        can_process(cards@, bulk_cards@, bulk_ranks@),
    ensures
        sets@.map_values(|s: CardSet| s@) == processed(
            cards@,
            bulk_cards@,
            bulk_ranks@,
            set_data.data@,
        ),
{
    let ghost user = cards@;
    let ghost codes_spec = set_codes(user);
    let ghost bulk_spec = bulk_cards@;
    let ghost reps = set_reports(user, bulk_spec, bulk_ranks@, set_data.data@);
    let ghost entries_spec = bulk_entries(bulk_spec, bulk_ranks@);
    let groups = group_by_set(&cards);
    let (mut codes, mut members) = groups.into_parts();
    let entries = bulk_to_entries(bulk_cards, &bulk_ranks);
    let k = codes.len();
    let mut reports: Vec<CardSet> = Vec::new();
    for i in 0..k
        invariant
            codes_spec == set_codes(user),
            k == codes_spec.len(),
            codes@.len() == k - i,
            members@.len() == k - i,
            forall|j: int|
                0 <= j < k - i ==> (#[trigger] codes@[j])@ == codes_spec[i + j] && members@[j]@
                    == cards_of_set(user, codes_spec[i + j]),
            entries@ == entries_spec,
            reps == set_reports(user, bulk_spec, bulk_ranks@, set_data.data@),
            entries_spec == bulk_entries(bulk_spec, bulk_ranks@),
            reps.len() == k,
            reports@.len() == i,
            forall|j: int| 0 <= j < i ==> (#[trigger] reports@[j])@ == reps[j],
    {
        let ghost old_codes = codes@;
        let ghost old_members = members@;
        let code = codes.remove(0);
        let mine = members.remove(0);
        proof {
            assert(old_codes[0]@ == codes_spec[i as int]);
            assert forall|j: int| 0 <= j < k - (i + 1) implies (#[trigger] codes@[j])@
                == codes_spec[i + 1 + j] && members@[j]@ == cards_of_set(
                user,
                codes_spec[i + 1 + j],
            ) by {
                assert(codes@[j] == old_codes[j + 1]);
                assert(members@[j] == old_members[j + 1]);
                assert(old_codes[j + 1]@ == codes_spec[i + (j + 1)]);
            }
        }
        proof {
            assert(mine@ == cards_of_set(user, codes_spec[i as int]));
            assert(reps[i as int] == report_of(
                entries_spec,
                set_data.data@,
                codes_spec[i as int],
                cards_of_set(user, codes_spec[i as int]),
            ));
        }
        let report = build_report(code, mine, &entries, &set_data.data);
        reports.push(report);
    }
    let ghost views = reports@.map_values(|s: CardSet| s@);
    assert(views =~= reps);
    let ranks = completion_ranks(&reports);
    let ranked = attach_ranks(reports, &ranks);
    let sorted = sort_by_rank(ranked);
    proof {
        let view_of = |s: CardSet| s@;
        assert(map_first(ranked@, view_of) =~= ranked_reports(reps));
        lemma_stable_sort_map_first(ranked@, view_of);
    }
    let out = strip_ranks(sorted);
    proof {
        let view_of = |s: CardSet| s@;
        assert(out@.map_values(|s: CardSet| s@) =~= map_first(sorted@, view_of).map_values(
            |e: (CardSetView, u64)| e.0,
        ));
    }
    out
}

/// Being more complete is transitive among reports with cards.
proof fn lemma_more_complete_transitive(x: CardSetView, b: CardSetView, a: CardSetView)
    requires
        x.set_count > 0,
        b.set_count > 0,
        a.set_count > 0,
        more_complete(x, b),
        more_complete(b, a),
    ensures
        more_complete(x, a),
{
    let (xc, xn, bc, bn, ac, an) = (
        x.collected_count as int,
        x.set_count as int,
        b.collected_count as int,
        b.set_count as int,
        a.collected_count as int,
        a.set_count as int,
    );
    assert(xc * an > ac * xn) by (nonlinear_arith)
        requires
            xn > 0,
            bn > 0,
            an > 0,
            xc >= 0,
            bc >= 0,
            ac >= 0,
            xc * bn > bc * xn,
            bc * an > ac * bn,
    {
        assert(xc * bn * an > bc * xn * an);
        assert(bc * an * xn > ac * bn * xn);
        assert((xc * an) * bn > (ac * xn) * bn);
    }
}

/// A filter keeps no more elements than a filter by a weaker predicate, and
/// strictly fewer when the weaker one keeps an element the other drops.
proof fn lemma_filter_len_mono<A>(s: Seq<A>, p: spec_fn(A) -> bool, q: spec_fn(A) -> bool, w: int)
    requires
        forall|i: int| 0 <= i < s.len() && p(#[trigger] s[i]) ==> q(s[i]),
    ensures
        s.filter(p).len() <= s.filter(q).len(),
        0 <= w < s.len() && q(s[w]) && !p(s[w]) ==> s.filter(p).len() < s.filter(q).len(),
    decreases s.len(),
{
    if s.len() > 0 {
        let s0 = s.drop_last();
        assert forall|i: int| 0 <= i < s0.len() && p(#[trigger] s0[i]) implies q(s0[i]) by {
            assert(s0[i] == s[i]);
        }
        lemma_filter_len_mono(s0, p, q, w);
        assert(s0.push(s.last()) =~= s);
        lemma_filter_push(s0, s.last(), p);
        lemma_filter_push(s0, s.last(), q);
        assert(p(s[s.len() - 1]) ==> q(s[s.len() - 1]));
        if 0 <= w < s.len() - 1 {
            assert(s0[w] == s[w]);
        }
    }
}

/// A report strictly more complete than another has a smaller completion
/// rank, when every report has cards.
proof fn lemma_rank_order(reps: Seq<CardSetView>, a: int, b: int)
    requires
        forall|m: int| 0 <= m < reps.len() ==> (#[trigger] reps[m]).set_count > 0,
        0 <= a < reps.len(),
        0 <= b < reps.len(),
        more_complete(reps[b], reps[a]),
    ensures
        completion_rank(reps, b) < completion_rank(reps, a),
{
    let p = more_complete_than(reps[b]);
    let q = more_complete_than(reps[a]);
    assert forall|i: int| 0 <= i < reps.len() && p(#[trigger] reps[i]) implies q(reps[i]) by {
        lemma_more_complete_transitive(reps[i], reps[b], reps[a]);
    }
    lemma_filter_len_mono(reps, p, q, b);
}

/// A set report lists as many cards as the database has for the set.
proof fn lemma_report_size(
    entries: Seq<(Card, Option<u64>)>,
    sets: Seq<ScryfallSet>,
    code: Seq<char>,
    mine: Seq<Card>,
)
    ensures
        report_of(entries, sets, code, mine).set_count == entries.filter(entry_in_set(code)).len(),
{
    lemma_stable_sort_exists(ranked_set_cards(entries.filter(entry_in_set(code)), mine));
}

/// No more set codes than cards.
proof fn lemma_set_codes_len(cards: Seq<Card>)
    ensures
        set_codes(cards).len() <= cards.len(),
    decreases cards.len(),
{
    if cards.len() > 0 {
        lemma_set_codes_len(cards.drop_last());
    }
}

/// The reports come most complete first: no report is strictly more
/// complete than one before it.
pub proof fn lemma_reports_by_completion(
    user: Seq<Card>,
    bulk: Seq<ScryfallCard>,
    ranks: Seq<Option<u64>>,
    sets: Seq<ScryfallSet>,
)
    requires
        user.len() <= usize::MAX,
        can_process(user, bulk, ranks),
    ensures
        forall|i: int, j: int|
            0 <= i < j < processed(user, bulk, ranks, sets).len() ==> !more_complete(
                #[trigger] processed(user, bulk, ranks, sets)[j],
                #[trigger] processed(user, bulk, ranks, sets)[i],
            ),
{
    let reps = set_reports(user, bulk, ranks, sets);
    let rr = ranked_reports(reps);
    let o = stable_sort_by_rank(rr);
    let res = processed(user, bulk, ranks, sets);
    let codes = set_codes(user);
    let entries = bulk_entries(bulk, ranks);
    lemma_stable_sort_exists(rr);
    lemma_stable_sort_members(rr);
    lemma_set_codes_len(user);
    assert forall|i: int, j: int| 0 <= i < j < res.len() implies !more_complete(
        #[trigger] res[j],
        #[trigger] res[i],
    ) by {
        assert(rr.contains(o[i]));
        assert(rr.contains(o[j]));
        let a = choose|a: int| 0 <= a < rr.len() && rr[a] == o[i];
        let b = choose|b: int| 0 <= b < rr.len() && rr[b] == o[j];
        assert(o[i].1 <= o[j].1);
        assert forall|m: int| 0 <= m < reps.len() implies (#[trigger] reps[m]).set_count > 0 by {
            lemma_report_size(entries, sets, codes[m], cards_of_set(user, codes[m]));
            assert(entries.filter(entry_in_set(codes[m])).len() > 0);
        }
        if more_complete(res[j], res[i]) {
            assert(res[j] == reps[b]);
            assert(res[i] == reps[a]);
            lemma_rank_order(reps, a, b);
            reps.lemma_filter_len(more_complete_than(reps[a]));
        }
    }
}

/// A card of report `r` belongs to its set and is marked as collected
/// exactly when the user has a card of that set with its collector number.
pub open spec fn report_card_marked(r: CardSetView, c: Card) -> bool {
    &&& c.collected == Some(
        exists|j: int|
            0 <= j < r.collected_cards.len() && (#[trigger] r.collected_cards[j]).collector_number@
                == c.collector_number@,
    )
    &&& c.set_code@ == r.code
}

/// Each report marks each of its cards as collected exactly when the user
/// has a card of that set with the same collector number; its cards are of
/// its set; and it counts no more collected cards than cards.
pub proof fn lemma_report_marks(
    user: Seq<Card>,
    bulk: Seq<ScryfallCard>,
    ranks: Seq<Option<u64>>,
    sets: Seq<ScryfallSet>,
)
    ensures
        forall|i: int, k: int|
            #![trigger processed(user, bulk, ranks, sets)[i].cards[k]]
            0 <= i < processed(user, bulk, ranks, sets).len() && 0 <= k
                < processed(user, bulk, ranks, sets)[i].cards.len() ==> processed(
                user,
                bulk,
                ranks,
                sets,
            )[i].cards[k].set_code@ == processed(user, bulk, ranks, sets)[i].code && processed(
                user,
                bulk,
                ranks,
                sets,
            )[i].cards[k].collected == Some(
                exists|j: int|
                    0 <= j < processed(user, bulk, ranks, sets)[i].collected_cards.len() && (
                    #[trigger] processed(user, bulk, ranks, sets)[i].collected_cards[j]).collector_number@
                        == processed(user, bulk, ranks, sets)[i].cards[k].collector_number@,
            ),
        forall|i: int|
            0 <= i < processed(user, bulk, ranks, sets).len() ==> (#[trigger] processed(
                user,
                bulk,
                ranks,
                sets,
            )[i]).collected_count <= processed(user, bulk, ranks, sets)[i].set_count,
{
    let reps = set_reports(user, bulk, ranks, sets);
    let rr = ranked_reports(reps);
    let o = stable_sort_by_rank(rr);
    let res = processed(user, bulk, ranks, sets);
    let codes = set_codes(user);
    let entries = bulk_entries(bulk, ranks);
    lemma_stable_sort_exists(rr);
    lemma_stable_sort_members(rr);
    assert forall|i: int| #![trigger res[i]] 0 <= i < res.len() implies exists|a: int|
        0 <= a < reps.len() && res[i] == #[trigger] reps[a] by {
        assert(rr.contains(o[i]));
        let a = choose|a: int| 0 <= a < rr.len() && rr[a] == o[i];
        assert(res[i] == reps[a]);
    }
    assert forall|i: int, k: int|
        #![trigger res[i].cards[k]]
        0 <= i < res.len() && 0 <= k < res[i].cards.len() implies report_card_marked(
        res[i],
        res[i].cards[k],
    ) by {
        let a = choose|a: int| 0 <= a < reps.len() && res[i] == #[trigger] reps[a];
        let code = codes[a];
        let mine = cards_of_set(user, code);
        let f = entries.filter(entry_in_set(code));
        let rs = ranked_set_cards(f, mine);
        let o2 = stable_sort_by_rank(rs);
        lemma_stable_sort_exists(rs);
        lemma_stable_sort_members(rs);
        assert(res[i].cards[k] == o2[k].0);
        assert(rs.contains(o2[k]));
        let m = choose|m: int| 0 <= m < rs.len() && rs[m] == o2[k];
        entries.lemma_filter_pred(entry_in_set(code), m);
    }
    assert forall|i: int| 0 <= i < res.len() implies (#[trigger] res[i]).collected_count
        <= res[i].set_count by {
        res[i].cards.lemma_filter_len(|c: Card| is_collected(c));
    }
}

/// There is one report for each set the user has cards of, holding the
/// user's cards of that set.
pub proof fn lemma_report_per_set(
    user: Seq<Card>,
    bulk: Seq<ScryfallCard>,
    ranks: Seq<Option<u64>>,
    sets: Seq<ScryfallSet>,
)
    ensures
        processed(user, bulk, ranks, sets).len() == set_codes(user).len(),
        forall|code: Seq<char>|
            has_set(user, code) <==> exists|i: int|
                0 <= i < processed(user, bulk, ranks, sets).len() && (#[trigger] processed(
                    user,
                    bulk,
                    ranks,
                    sets,
                )[i]).code == code,
        forall|i: int|
            0 <= i < processed(user, bulk, ranks, sets).len() ==> (#[trigger] processed(
                user,
                bulk,
                ranks,
                sets,
            )[i]).collected_cards == cards_of_set(user, processed(user, bulk, ranks, sets)[i].code),
{
    let reps = set_reports(user, bulk, ranks, sets);
    let rr = ranked_reports(reps);
    let o = stable_sort_by_rank(rr);
    let res = processed(user, bulk, ranks, sets);
    let codes = set_codes(user);
    lemma_stable_sort_exists(rr);
    lemma_stable_sort_members(rr);
    lemma_set_codes(user);
    assert forall|i: int| #![trigger res[i]] 0 <= i < res.len() implies exists|a: int|
        0 <= a < reps.len() && res[i] == #[trigger] reps[a] by {
        assert(rr.contains(o[i]));
        let a = choose|a: int| 0 <= a < rr.len() && rr[a] == o[i];
        assert(res[i] == reps[a]);
    }
    assert forall|code: Seq<char>| has_set(user, code) <==> exists|i: int|
        0 <= i < res.len() && (#[trigger] res[i]).code == code by {
        if has_set(user, code) {
            assert(codes.contains(code));
            let a = choose|a: int| 0 <= a < codes.len() && codes[a] == code;
            assert(o.contains(rr[a]));
            let i = choose|i: int| 0 <= i < o.len() && o[i] == rr[a];
            assert(res[i].code == code);
        }
        if exists|i: int| 0 <= i < res.len() && (#[trigger] res[i]).code == code {
            let i = choose|i: int| 0 <= i < res.len() && (#[trigger] res[i]).code == code;
            let a = choose|a: int| 0 <= a < reps.len() && res[i] == #[trigger] reps[a];
            assert(codes[a] == code);
            assert(codes.contains(code));
        }
    }
    assert forall|i: int| 0 <= i < res.len() implies (#[trigger] res[i]).collected_cards
        == cards_of_set(user, res[i].code) by {
        let a = choose|a: int| 0 <= a < reps.len() && res[i] == #[trigger] reps[a];
    }
}

/// Each report lists every database card of its set once: as many cards as
/// the database has for the set, each of them marked.
pub proof fn lemma_report_holds_set_cards(
    user: Seq<Card>,
    bulk: Seq<ScryfallCard>,
    ranks: Seq<Option<u64>>,
    sets: Seq<ScryfallSet>,
)
    ensures
        forall|i: int|
            #![trigger processed(user, bulk, ranks, sets)[i]]
            0 <= i < processed(user, bulk, ranks, sets).len() ==> processed(
                user,
                bulk,
                ranks,
                sets,
            )[i].cards.len() == bulk_entries(bulk, ranks).filter(
                entry_in_set(processed(user, bulk, ranks, sets)[i].code),
            ).len(),
        forall|i: int, j: int|
            #![trigger processed(user, bulk, ranks, sets)[i], bulk_entries(bulk, ranks).filter(
                entry_in_set(processed(user, bulk, ranks, sets)[i].code),
            )[j]]
            0 <= i < processed(user, bulk, ranks, sets).len() && 0 <= j < bulk_entries(
                bulk,
                ranks,
            ).filter(entry_in_set(processed(user, bulk, ranks, sets)[i].code)).len()
                ==> processed(user, bulk, ranks, sets)[i].cards.contains(
                marked(
                    bulk_entries(bulk, ranks).filter(
                        entry_in_set(processed(user, bulk, ranks, sets)[i].code),
                    )[j].0,
                    processed(user, bulk, ranks, sets)[i].collected_cards,
                ),
            ),
{
    let reps = set_reports(user, bulk, ranks, sets);
    let rr = ranked_reports(reps);
    let o = stable_sort_by_rank(rr);
    let res = processed(user, bulk, ranks, sets);
    let codes = set_codes(user);
    let entries = bulk_entries(bulk, ranks);
    lemma_stable_sort_exists(rr);
    lemma_stable_sort_members(rr);
    assert forall|i: int| #![trigger res[i]] 0 <= i < res.len() implies exists|a: int|
        0 <= a < reps.len() && res[i] == #[trigger] reps[a] by {
        assert(rr.contains(o[i]));
        let a = choose|a: int| 0 <= a < rr.len() && rr[a] == o[i];
        assert(res[i] == reps[a]);
    }
    assert forall|i: int| #![trigger res[i]] 0 <= i < res.len() implies res[i].cards.len()
        == entries.filter(entry_in_set(res[i].code)).len() && forall|j: int|
        0 <= j < entries.filter(entry_in_set(res[i].code)).len() ==> res[i].cards.contains(
            marked(#[trigger] entries.filter(entry_in_set(res[i].code))[j].0, res[i].collected_cards),
        ) by {
        let a = choose|a: int| 0 <= a < reps.len() && res[i] == #[trigger] reps[a];
        let code = codes[a];
        let mine = cards_of_set(user, code);
        let f = entries.filter(entry_in_set(code));
        let rs = ranked_set_cards(f, mine);
        let o2 = stable_sort_by_rank(rs);
        lemma_stable_sort_exists(rs);
        lemma_stable_sort_members(rs);
        assert forall|j: int| 0 <= j < f.len() implies res[i].cards.contains(
            marked(#[trigger] f[j].0, mine),
        ) by {
            assert(o2.contains(rs[j]));
            let k = choose|k: int| 0 <= k < o2.len() && o2[k] == rs[j];
            assert(res[i].cards[k] == o2[k].0);
        }
    }
}

/// How many database cards the set `code` has, and whether each of them has
/// a rank.
fn set_stats(bulk: &Vec<ScryfallCard>, ranks: &Vec<Option<u64>>, code: &String) -> (r: (usize, bool))
    requires
        ranks@.len() == bulk@.len(),
    ensures
        r.0 == bulk_entries(bulk@, ranks@).filter(entry_in_set(code@)).len(),
        r.1 == all_ranked(bulk_entries(bulk@, ranks@).filter(entry_in_set(code@))),
{
    let ghost entries = bulk_entries(bulk@, ranks@);
    let ghost pred = entry_in_set(code@);
    let n = bulk.len();
    let mut count: usize = 0;
    let mut every_ranked = true;
    for m in 0..n
        invariant
            n == bulk@.len(),
            ranks@.len() == n,
            entries == bulk_entries(bulk@, ranks@),
            pred == entry_in_set(code@),
            count == entries.take(m as int).filter(pred).len(),
            count <= m,
            every_ranked == all_ranked(entries.take(m as int).filter(pred)),
    {
        let ghost before = entries.take(m as int).filter(pred);
        proof {
            lemma_take_succ(entries, m as int);
            lemma_filter_push(entries.take(m as int), entries[m as int], pred);
            assert(entries[m as int] == (card_from_scryfall(bulk@[m as int]), ranks@[m as int]));
        }
        if bulk[m].set == *code {
            count = count + 1;
            let ranked = ranks[m].is_some();
            proof {
                let after = before.push(entries[m as int]);
                if every_ranked && ranked {
                    assert forall|j: int| 0 <= j < after.len() implies (#[trigger] after[j]).1 is Some by {
                        assert(all_ranked(before));
                        if j < before.len() {
                            assert(after[j] == before[j]);
                        }
                    }
                }
                if !ranked {
                    assert(!(after[before.len() as int].1 is Some));
                }
                if !every_ranked {
                    let j = choose|j: int| 0 <= j < before.len() && !((#[trigger] before[j]).1 is Some);
                    assert(after[j] == before[j]);
                }
            }
            every_ranked = every_ranked && ranked;
        }
    }
    assert(entries.take(n as int) =~= entries);
    (count, every_ranked)
}

/// Whether `process_data` accepts these inputs (see `can_process`).
pub fn can_process_data(
    cards: &Vec<Card>,
    bulk_cards: &Vec<ScryfallCard>,
    bulk_ranks: &Vec<Option<u64>>,
) -> (b: bool)
    requires
        bulk_ranks@.len() == bulk_cards@.len(),
    ensures
        b == can_process(cards@, bulk_cards@, bulk_ranks@),
{
    let ghost entries = bulk_entries(bulk_cards@, bulk_ranks@);
    let ghost codes_spec = set_codes(cards@);
    let groups = group_by_set(cards);
    let (codes, _) = groups.into_parts();
    let k = codes.len();
    for i in 0..k
        invariant
            k == codes@.len(),
            k == codes_spec.len(),
            codes_spec == set_codes(cards@),
            bulk_ranks@.len() == bulk_cards@.len(),
            entries == bulk_entries(bulk_cards@, bulk_ranks@),
            forall|j: int| 0 <= j < k ==> (#[trigger] codes@[j])@ == codes_spec[j],
            forall|m: int|
                0 <= m < i ==> ((#[trigger] entries.filter(entry_in_set(codes_spec[m]))).len() >= 2
                    ==> all_ranked(entries.filter(entry_in_set(codes_spec[m])))) && (k >= 2
                    ==> entries.filter(entry_in_set(codes_spec[m])).len() > 0),
    {
        assert(codes@[i as int]@ == codes_spec[i as int]);
        let (count, every_ranked) = set_stats(bulk_cards, bulk_ranks, &codes[i]);
        if count >= 2 && !every_ranked {
            return false;
        }
        if k >= 2 && count == 0 {
            return false;
        }
    }
    true
}

} // verus!
