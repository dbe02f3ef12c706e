//! Requests for toys: which one is wanted most.

use vstd::prelude::*;
use vstd::slice::slice_subrange;
use vstd::string::*;

use crate::text::chars_of;
use crate::text::law_separators_part;
use crate::text::law_split_join;
use crate::text::parse_unsigned;
use crate::text::piece_at;
use crate::text::split_on;
use crate::text::split_ranges;
use crate::text::unsigned;

verus! {

/// How many of a toy are wanted: the number before the first `x`.
pub open spec fn toy_count(toy_request: Seq<char>) -> Option<u32> {
    match toy_request.index_of_first('x') {
        Some(i) => unsigned(toy_request.take(i)),
        None => None,
    }
}

/// Whether each toy of a request comes with how many are wanted.
pub open spec fn is_request(request: Seq<char>) -> bool {
    forall|k: int|
        0 <= k < split_on(request, ',').len() ==> toy_count(
            #[trigger] split_on(request, ',')[k],
        ) is Some
}

/// The toy of which most are wanted. Of those that are wanted as much, it is the last.
pub open spec fn most_wanted(toys: Seq<Seq<char>>) -> Seq<char>
    decreases toys.len(),
{
    if toys.len() <= 1 {
        toys[0]
    } else {
        let before = most_wanted(toys.drop_last());
        if toy_count(toys.last())->0 >= toy_count(before)->0 {
            toys.last()
        } else {
            before
        }
    }
}

/// The toy of a request of which most are wanted.
pub open spec fn priority(request: Seq<char>) -> Seq<char> {
    most_wanted(split_on(request, ','))
}

/// How many of a toy are wanted.
fn parse_toy_count(toy_request: &[char]) -> (out: Option<u32>)
    ensures
        out == toy_count(toy_request@),
{
    let mut i: usize = 0;
    while i < toy_request.len()
        invariant
            i <= toy_request.len(),
            forall|k: int| 0 <= k < i ==> #[trigger] toy_request@[k] != 'x',
        decreases toy_request.len() - i,
    {
        if toy_request[i] == 'x' {
            let count = slice_subrange(toy_request, 0, i);
            proof {
                toy_request@.index_of_first_ensures('x');
                let first = toy_request@.index_of_first('x')->0;
                assert(toy_request@.contains(toy_request@[i as int]));
                assert(first == i);
                assert(count@ == toy_request@.take(i as int));
            }
            return parse_unsigned(count);
        }
        i = i + 1;
    }
    assert(!toy_request@.contains('x'));
    proof {
        toy_request@.index_of_first_ensures('x');
    }
    None
}

/// The toy of which most are wanted, if the request is one.
pub fn try_toy_priority<'a>(request: &'a str) -> (out: Option<&'a str>)
    ensures
        out is Some == is_request(request@),
        out matches Some(toy) ==> toy@ == priority(request@),
{
    let chars = chars_of(request);
    let ranges = split_ranges(chars.as_slice(), ',');
    let ghost toys = split_on(request@, ',');
    proof {
        law_split_join(request@, ',');
    }
    let mut best: (usize, usize) = ranges[0];
    let mut most: u32 = 0;
    let mut i: usize = 0;
    while i < ranges.len()
        invariant
            i <= ranges.len(),
            chars@ == request@,
            toys == split_on(request@, ','),
            ranges@.len() == toys.len(),
            forall|k: int|
                0 <= k < ranges@.len() ==> (#[trigger] ranges@[k]).0 <= ranges@[k].1 <= chars@.len()
                    && piece_at(chars@, ranges@[k]) == toys[k],
            forall|k: int| 0 <= k < i ==> toy_count(#[trigger] toys[k]) is Some,
            best.0 <= best.1 <= chars@.len(),
            i > 0 ==> piece_at(chars@, best) == most_wanted(toys.take(i as int)) && toy_count(
                most_wanted(toys.take(i as int)),
            ) == Some(most),
        decreases ranges.len() - i,
    {
        let range = ranges[i];
        let toy = slice_subrange(chars.as_slice(), range.0, range.1);
        proof {
            assert(toy@ == piece_at(chars@, ranges@[i as int]));
            assert(toys.take(i + 1).drop_last() == toys.take(i as int));
        }
        match parse_toy_count(toy) {
            Some(count) => {
                if i == 0 || count >= most {
                    best = range;
                    most = count;
                }
            },
            None => {
                assert(toy_count(toys[i as int]) is None);
                return None;
            },
        }
        i = i + 1;
    }
    assert(toys.take(toys.len() as int) == toys);
    Some(request.substring_char(best.0, best.1))
}

/// The toy of which most are wanted.
pub fn toy_priority<'a>(request: &'a str) -> (toy: &'a str)
    requires
        is_request(request@),
    ensures
        toy@ == priority(request@),
{
    match try_toy_priority(request) {
        Some(toy) => toy,
        None => request,
    }
}

/// The toy that is wanted most is one of the request, no other is wanted more, and those after it
/// are wanted less.
pub proof fn law_nothing_is_wanted_more(request: Seq<char>) -> (k: int)
    requires
        is_request(request),
    ensures
        0 <= k < split_on(request, ',').len(),
        priority(request) == split_on(request, ',')[k],
        forall|j: int|
            0 <= j < split_on(request, ',').len() ==> toy_count(
                #[trigger] split_on(request, ',')[j],
            )->0 <= toy_count(priority(request))->0,
        forall|j: int|
            k < j < split_on(request, ',').len() ==> toy_count(
                #[trigger] split_on(request, ',')[j],
            )->0 < toy_count(priority(request))->0,
{
    law_split_join(request, ',');
    lemma_most_wanted(split_on(request, ','))
}

proof fn lemma_most_wanted(toys: Seq<Seq<char>>) -> (k: int)
    requires
        toys.len() > 0,
    ensures
        0 <= k < toys.len(),
        most_wanted(toys) == toys[k],
        forall|j: int|
            0 <= j < toys.len() ==> toy_count(#[trigger] toys[j])->0 <= toy_count(
                most_wanted(toys),
            )->0,
        forall|j: int|
            k < j < toys.len() ==> toy_count(#[trigger] toys[j])->0 < toy_count(
                most_wanted(toys),
            )->0,
    decreases toys.len(),
{
    if toys.len() <= 1 {
        0
    } else {
        let before = lemma_most_wanted(toys.drop_last());
        assert forall|j: int| 0 <= j < toys.len() - 1 implies toy_count(#[trigger] toys[j])->0
            <= toy_count(most_wanted(toys.drop_last()))->0 by {
            assert(toys[j] == toys.drop_last()[j]);
        }
        if toy_count(toys.last())->0 >= toy_count(most_wanted(toys.drop_last()))->0 {
            toys.len() - 1
        } else {
            assert forall|j: int| before < j < toys.len() implies toy_count(#[trigger] toys[j])->0
                < toy_count(most_wanted(toys))->0 by {
                if j < toys.len() - 1 {
                    assert(toys[j] == toys.drop_last()[j]);
                }
            }
            before
        }
    }
}

/// How many of a toy are wanted is the number before the first `x`, and without an `x` there is none.
pub proof fn law_counts_stand_before_the_x(count: Seq<char>, name: Seq<char>)
    requires
        !count.contains('x'),
    ensures
        toy_count(count + seq!['x'] + name) == unsigned(count),
        toy_count(count) is None,
{
    let toy = count + seq!['x'] + name;
    let n = count.len() as int;
    toy.index_of_first_ensures('x');
    count.index_of_first_ensures('x');
    assert(toy[n] == 'x');
    assert(toy.contains(toy[n]));
    let i = toy.index_of_first('x')->0;
    if i < n {
        assert(toy[i] == count[i]);
        assert(count.contains(count[i]));
    }
    assert(i == n);
    assert(toy.take(n) == count);
}

/// Commas part a request into toys: it is one exactly if what stands before a comma and what stands
/// behind it are, and a single toy must have its count.
pub proof fn law_commas_part_requests(a: Seq<char>, b: Seq<char>)
    ensures
        is_request(a + seq![','] + b) <==> is_request(a) && is_request(b),
        !a.contains(',') ==> (is_request(a) <==> toy_count(a) is Some),
{
    law_separators_part(a, b, ',');
    let all = split_on(a, ',') + split_on(b, ',');
    let n = split_on(a, ',').len() as int;
    if is_request(a + seq![','] + b) {
        assert forall|k: int| 0 <= k < split_on(a, ',').len() implies toy_count(
            #[trigger] split_on(a, ',')[k],
        ) is Some by {
            assert(all[k] == split_on(a, ',')[k]);
        }
        assert forall|k: int| 0 <= k < split_on(b, ',').len() implies toy_count(
            #[trigger] split_on(b, ',')[k],
        ) is Some by {
            assert(all[n + k] == split_on(b, ',')[k]);
        }
    }
    if is_request(a) && is_request(b) {
        assert forall|k: int| 0 <= k < all.len() implies toy_count(#[trigger] all[k]) is Some by {
            if k < n {
                assert(all[k] == split_on(a, ',')[k]);
            } else {
                assert(all[k] == split_on(b, ',')[k - n]);
            }
        }
    }
    if !a.contains(',') {
        assert(split_on(a, ',')[0] == a);
    }
}

/// Of two parts of a request, the toy of the second is chosen unless more of the toy of the first are
/// wanted.
pub proof fn law_later_toys_come_first_on_a_tie(a: Seq<char>, b: Seq<char>)
    ensures
        !a.contains(',') ==> priority(a) == a,
        is_request(a) && is_request(b) ==> priority(a + seq![','] + b) == if toy_count(
            priority(b),
        )->0 >= toy_count(priority(a))->0 {
            priority(b)
        } else {
            priority(a)
        },
{
    law_separators_part(a, b, ',');
    law_split_join(a, ',');
    law_split_join(b, ',');
    lemma_most_wanted_of_two(split_on(a, ','), split_on(b, ','));
}

proof fn lemma_most_wanted_of_two(a: Seq<Seq<char>>, b: Seq<Seq<char>>)
    requires
        a.len() > 0,
        b.len() > 0,
    ensures
        most_wanted(a + b) == if toy_count(most_wanted(b))->0 >= toy_count(most_wanted(a))->0 {
            most_wanted(b)
        } else {
            most_wanted(a)
        },
    decreases b.len(),
{
    assert((a + b).drop_last() == a + b.drop_last());
    assert((a + b).last() == b.last());
    if b.len() == 1 {
        assert(a + b.drop_last() == a);
    } else {
        lemma_most_wanted_of_two(a, b.drop_last());
    }
}

} // verus!
