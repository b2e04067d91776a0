//! The nodes that a new node is told to join.
use vstd::prelude::*;
use crate::node::{is_random_uuid, NodeId, NodeInfo};

verus! {

/// The characters with the Unicode property White_Space.
pub open spec fn is_white(c: char) -> bool {
    let n = c as u32;
    ||| 0x09 <= n <= 0x0d
    ||| n == 0x20
    ||| n == 0x85
    ||| n == 0xa0
    ||| n == 0x1680
    ||| 0x2000 <= n <= 0x200a
    ||| n == 0x2028
    ||| n == 0x2029
    ||| n == 0x202f
    ||| n == 0x205f
    ||| n == 0x3000
}

/// The text without white space at its start.
pub open spec fn trimmed_start(s: Seq<char>) -> Seq<char>
    decreases s.len(),
{
    if s.len() > 0 && is_white(s[0]) {
        trimmed_start(s.skip(1))
    } else {
        s
    }
}

/// The text without white space at its end.
pub open spec fn trimmed_end(s: Seq<char>) -> Seq<char>
    decreases s.len(),
{
    if s.len() > 0 && is_white(s.last()) {
        trimmed_end(s.drop_last())
    } else {
        s
    }
}

/// The text without white space at either end.
pub open spec fn trimmed(s: Seq<char>) -> Seq<char> {
    trimmed_end(trimmed_start(s))
}

/// The texts between the commas.
pub open spec fn fields(s: Seq<char>) -> Seq<Seq<char>>
    decreases s.len(),
{
    if s.len() == 0 {
        seq![seq![]]
    } else {
        let before = fields(s.drop_last());
        if s.last() == ',' {
            before.push(seq![])
        } else {
            before.drop_last().push(before.last().push(s.last()))
        }
    }
}

/// The fields that are not empty, each without the white space at its ends.
pub open spec fn addresses(fields: Seq<Seq<char>>) -> Seq<Seq<char>>
    decreases fields.len(),
{
    if fields.len() == 0 {
        seq![]
    } else if fields.last().len() == 0 {
        addresses(fields.drop_last())
    } else {
        addresses(fields.drop_last()).push(trimmed(fields.last()))
    }
}

pub open spec fn texts(list: Seq<String>) -> Seq<Seq<char>> {
    list.map_values(|s: String| s@)
}

fn white(c: char) -> (yes: bool)
    ensures
        yes == is_white(c),
{
    let n: u32 = c as u32;
    (0x09 <= n && n <= 0x0d) || n == 0x20 || n == 0x85 || n == 0xa0 || n == 0x1680 || (0x2000 <= n && n <= 0x200a)
        || n == 0x2028 || n == 0x2029 || n == 0x202f || n == 0x205f || n == 0x3000
}

/// The text without white space at either end.
fn trim(s: &str) -> (r: String)
    ensures
        r@ == trimmed(s@),
{
    let n: usize = s.unicode_len();
    let mut from: usize = 0;
    assert(s@.skip(0) =~= s@);
    while from < n && white(s.get_char(from))
        invariant
            from <= n == s@.len(),
            trimmed_start(s@) == trimmed_start(s@.skip(from as int)),
        decreases n - from,
    {
        assert(s@.skip(from as int).skip(1) =~= s@.skip(from + 1));
        from += 1;
    }
    let ghost start = s@.skip(from as int);
    assert(trimmed_start(s@) == start);
    let mut to: usize = n;
    assert(s@.subrange(from as int, n as int) =~= start);
    while from < to && white(s.get_char(to - 1))
        invariant
            from <= to <= n == s@.len(),
            trimmed_end(start) == trimmed_end(s@.subrange(from as int, to as int)),
        decreases to - from,
    {
        assert(s@.subrange(from as int, to as int).drop_last() =~= s@.subrange(from as int, to - 1));
        to -= 1;
    }
    s.substring_char(from, to).to_string()
}

/// The addresses in a list that is separated by commas.
pub fn parse_seed_addrs(list: &str) -> (addrs: Vec<String>)
    ensures
        texts(addrs@) == addresses(fields(list@)),
{
    let n: usize = list.unicode_len();
    let mut addrs: Vec<String> = Vec::new();
    let mut field = String::new();
    let ghost mut done: Seq<Seq<char>> = seq![];
    let mut i: usize = 0;
    assert(list@.take(0) =~= Seq::<char>::empty());
    assert(fields(list@.take(0)) =~= done.push(field@));
    assert(texts(addrs@) =~= addresses(done));
    while i < n
        invariant
            i <= n == list@.len(),
            fields(list@.take(i as int)) == done.push(field@),
            texts(addrs@) == addresses(done),
        decreases n - i,
    {
        let c = list.get_char(i);
        let ghost before = fields(list@.take(i as int));
        assert(list@.take(i + 1).drop_last() =~= list@.take(i as int));
        assert(before.drop_last() =~= done);
        if c == ',' {
            assert(done.push(field@).drop_last() =~= done);
            push_address(&mut addrs, &field, Ghost(done));
            proof {
                done = done.push(field@);
            }
            field = String::new();
            assert(fields(list@.take(i + 1)) =~= done.push(field@));
        } else {
            field.push(c);
            assert(fields(list@.take(i + 1)) =~= done.push(field@));
        }
        i += 1;
    }
    assert(list@.take(i as int) =~= list@);
    push_address(&mut addrs, &field, Ghost(done));
    addrs
}

/// Appends the address that a field holds, if it is not empty.
fn push_address(addrs: &mut Vec<String>, field: &String, Ghost(done): Ghost<Seq<Seq<char>>>)
    requires
        texts(old(addrs)@) == addresses(done),
    ensures
        texts(final(addrs)@) == addresses(done.push(field@)),
{
    assert(done.push(field@).drop_last() =~= done);
    if field.as_str().unicode_len() > 0 {
        let ghost before = texts(addrs@);
        addrs.push(trim(field.as_str()));
        assert(texts(addrs@) =~= before.push(trimmed(field@)));
    }
}

/// The nodes at the addresses. Each needs an identity; as the real ones are not known yet, they
/// are drawn.
pub fn seed_infos(addrs: &Vec<String>) -> (infos: Vec<NodeInfo>)
    ensures
        infos@.len() == addrs@.len(),
        forall|i: int|
            0 <= i < infos@.len() ==> (#[trigger] infos@[i]).addr@ == addrs@[i]@ && is_random_uuid(infos@[i].id.0),
{
    let mut infos: Vec<NodeInfo> = Vec::new();
    let mut i: usize = 0;
    while i < addrs.len()
        invariant
            i <= addrs@.len(),
            infos@.len() == i,
            forall|k: int|
                0 <= k < infos@.len() ==> (#[trigger] infos@[k]).addr@ == addrs@[k]@ && is_random_uuid(infos@[k].id.0),
        decreases addrs@.len() - i,
    {
        infos.push(NodeInfo { id: NodeId::new(), addr: addrs[i].clone() });
        i += 1;
    }
    infos
}

/// Texts with commas between them.
pub open spec fn with_commas(texts: Seq<Seq<char>>) -> Seq<char>
    decreases texts.len(),
{
    if texts.len() == 0 {
        seq![]
    } else if texts.len() == 1 {
        texts[0]
    } else {
        with_commas(texts.drop_last()) + seq![','] + texts.last()
    }
}

/// The fields of a list are what stands between its commas: with commas between them they are the
/// list again, and none of them holds one.
pub proof fn lemma_fields(s: Seq<char>)
    ensures
        fields(s).len() > 0,
        with_commas(fields(s)) == s,
        forall|i: int| 0 <= i < fields(s).len() ==> !(#[trigger] fields(s)[i]).contains(','),
    decreases s.len(),
{
    let all = fields(s);
    if s.len() == 0 {
        assert(all[0] =~= s);
    } else {
        let front = s.drop_last();
        let before = fields(front);
        lemma_fields(front);
        if s.last() == ',' {
            assert(all.drop_last() =~= before);
            assert(with_commas(all) =~= s);
        } else {
            let last = before.last().push(s.last());
            assert(all.drop_last() =~= before.drop_last());
            assert(with_commas(all) =~= s) by {
                assert(all.last() == last);
                if before.len() == 1 {
                    assert(all[0] == last);
                    assert(with_commas(before) == before[0]);
                } else {
                    assert(with_commas(before) == with_commas(before.drop_last()) + seq![','] + before.last());
                    assert(with_commas(all) == with_commas(before.drop_last()) + seq![','] + last);
                }
                assert(with_commas(all) =~= front.push(s.last()));
                assert(front.push(s.last()) =~= s);
            }
            assert forall|i: int| 0 <= i < all.len() implies !(#[trigger] all[i]).contains(',') by {
                if i < all.len() - 1 {
                    assert(all[i] == before[i]);
                } else {
                    assert(all[i] == last);
                    if last.contains(',') {
                        let k = last.index_of(',');
                        assert(before[before.len() - 1][k] == ',');
                        assert(before[before.len() - 1].contains(','));
                    }
                }
            }
        }
    }
}

/// The addresses are the fields that are not empty, in their order, each trimmed.
pub proof fn lemma_addresses(list: Seq<Seq<char>>)
    ensures
        addresses(list) == list.filter(|f: Seq<char>| f.len() > 0).map_values(|f: Seq<char>| trimmed(f)),
    decreases list.len(),
{
    reveal(Seq::filter);
    let kept = list.filter(|f: Seq<char>| f.len() > 0);
    if list.len() == 0 {
        assert(addresses(list) =~= kept.map_values(|f: Seq<char>| trimmed(f)));
    } else {
        lemma_addresses(list.drop_last());
        assert(addresses(list) =~= kept.map_values(|f: Seq<char>| trimmed(f)));
    }
}

proof fn lemma_trimmed_start(s: Seq<char>) -> (a: int)
    ensures
        0 <= a <= s.len(),
        trimmed_start(s) == s.skip(a),
        forall|i: int| 0 <= i < a ==> is_white(#[trigger] s[i]),
        a < s.len() ==> !is_white(s[a]),
    decreases s.len(),
{
    if s.len() > 0 && is_white(s[0]) {
        let rest = s.skip(1);
        let a = lemma_trimmed_start(rest);
        assert(rest.skip(a) =~= s.skip(a + 1));
        assert forall|i: int| 0 <= i < a + 1 implies is_white(#[trigger] s[i]) by {
            if i > 0 {
                assert(is_white(rest[i - 1]));
            }
        }
        a + 1
    } else {
        assert(s.skip(0) =~= s);
        0
    }
}

proof fn lemma_trimmed_end(s: Seq<char>) -> (b: int)
    ensures
        0 <= b <= s.len(),
        trimmed_end(s) == s.take(b),
        forall|i: int| b <= i < s.len() ==> is_white(#[trigger] s[i]),
        0 < b ==> !is_white(s[b - 1]),
    decreases s.len(),
{
    if s.len() > 0 && is_white(s.last()) {
        let rest = s.drop_last();
        let b = lemma_trimmed_end(rest);
        assert(rest.take(b) =~= s.take(b));
        assert forall|i: int| b <= i < s.len() implies is_white(#[trigger] s[i]) by {
            if i < rest.len() {
                assert(is_white(rest[i]));
            }
        }
        b
    } else {
        assert(s.take(s.len() as int) =~= s);
        s.len() as int
    }
}

/// Trimming takes white space away from both ends, all of it and nothing else.
pub proof fn lemma_trimmed(s: Seq<char>)
    ensures
        exists|a: int, b: int|
            {
                &&& 0 <= a <= b <= s.len()
                &&& trimmed(s) == #[trigger] s.subrange(a, b)
                &&& forall|i: int| 0 <= i < a || b <= i < s.len() ==> is_white(#[trigger] s[i])
                &&& a < b ==> !is_white(s[a]) && !is_white(s[b - 1])
            },
{
    let a = lemma_trimmed_start(s);
    let rest = s.skip(a);
    let c = lemma_trimmed_end(rest);
    let b = a + c;
    assert(rest.take(c) =~= s.subrange(a, b));
    assert forall|i: int| 0 <= i < a || b <= i < s.len() implies is_white(#[trigger] s[i]) by {
        if b <= i < s.len() {
            assert(is_white(rest[i - a]));
        }
    }
    assert(trimmed(s) == s.subrange(a, b));
}

/// The characters that are taken away are those that Unicode calls white space, all 25 of them.
pub proof fn lemma_white(c: char)
    ensures
        is_white(c) <==> c == '\u{9}' || c == '\u{a}' || c == '\u{b}' || c == '\u{c}' || c == '\u{d}' || c == ' ' || c
            == '\u{85}' || c == '\u{a0}' || c == '\u{1680}' || '\u{2000}' <= c <= '\u{200a}' || c == '\u{2028}' || c
            == '\u{2029}' || c == '\u{202f}' || c == '\u{205f}' || c == '\u{3000}',
{
}

} // verus!
