//! Splitting of long messages into PRIVMSGs that fit the IRC line limit.

use vstd::prelude::*;
use vstd::string::*;

verus! {

/// The longest line IRC allows, line ending included.
pub const MAX_LINE: usize = 512;

/// Bytes of a character in UTF-8.
pub open spec fn char_len(c: char) -> nat {
    if (c as u32) < 0x80 {
        1
    } else if (c as u32) < 0x800 {
        2
    } else if (c as u32) < 0x10000 {
        3
    } else {
        4
    }
}

/// Bytes of a string in UTF-8.
pub open spec fn byte_len(s: Seq<char>) -> nat
    decreases s.len(),
{
    if s.len() == 0 {
        0
    } else {
        byte_len(s.drop_last()) + char_len(s.last())
    }
}

pub fn char_len_exec(c: char) -> (r: usize)
    ensures
        r == char_len(c),
{
    let u = c as u32;
    if u < 0x80 {
        1
    } else if u < 0x800 {
        2
    } else if u < 0x10000 {
        3
    } else {
        4
    }
}

/// Chunks written one after another.
pub open spec fn concat_all(cs: Seq<Seq<char>>) -> Seq<char>
    decreases cs.len(),
{
    if cs.len() == 0 {
        seq![]
    } else {
        concat_all(cs.drop_last()) + cs.last()
    }
}

pub open spec fn strs_of(v: Seq<&str>) -> Seq<Seq<char>> {
    v.map_values(|s: &str| s@)
}

/// Splits `msg` at character boundaries into chunks of at most `max` bytes
/// each (in UTF-8), none empty, that make up `msg` again.
pub fn split_chunks(msg: &str, max: usize) -> (r: Vec<&str>)
    requires
        max >= 4,
    ensures
        concat_all(strs_of(r@)) == msg@,
        forall|i: int| 0 <= i < r@.len() ==> byte_len(#[trigger] r@[i]@) <= max && r@[i]@.len() > 0,
{
    let n = msg.unicode_len();
    let mut r: Vec<&str> = Vec::new();
    let mut start: usize = 0;
    let mut i: usize = 0;
    let mut bytes: usize = 0;
    while i < n
        invariant
            n == msg@.len(),
            max >= 4,
            start <= i <= n,
            concat_all(strs_of(r@)) == msg@.subrange(0, start as int),
            bytes == byte_len(msg@.subrange(start as int, i as int)),
            bytes <= max,
            forall|k: int| 0 <= k < r@.len() ==> byte_len(#[trigger] r@[k]@) <= max && r@[k]@.len() > 0,
        decreases n - i, n - start,
    {
        let c = msg.get_char(i);
        let l = char_len_exec(c);
        if l > max - bytes {
            let chunk = msg.substring_char(start, i);
            let ghost before = strs_of(r@);
            r.push(chunk);
            proof {
                assert(strs_of(r@) =~= before.push(chunk@));
                assert(strs_of(r@).drop_last() =~= before);
                assert(msg@.subrange(0, start as int) + msg@.subrange(start as int, i as int) =~= msg@.subrange(0, i as int));
                assert(i > start) by {
                    if i == start {
                        assert(msg@.subrange(start as int, i as int).len() == 0);
                    }
                }
            }
            start = i;
            bytes = 0;
            assert(msg@.subrange(start as int, i as int).len() == 0);
        } else {
            bytes = bytes + l;
            i = i + 1;
            assert(msg@.subrange(start as int, i as int).drop_last() =~= msg@.subrange(start as int, i - 1));
        }
    }
    if start < n {
        let chunk = msg.substring_char(start, n);
        let ghost before = strs_of(r@);
        r.push(chunk);
        proof {
            assert(strs_of(r@) =~= before.push(chunk@));
            assert(strs_of(r@).drop_last() =~= before);
            assert(msg@.subrange(0, start as int) + msg@.subrange(start as int, n as int) =~= msg@);
        }
    } else {
        assert(msg@.subrange(0, start as int) =~= msg@);
    }
    r
}

/// The longest start of `b` that takes at most `k` bytes.
pub open spec fn take_fit(b: Seq<char>, k: int) -> Seq<char>
    decreases b.len(),
{
    if b.len() == 0 || char_len(b[0]) > k {
        seq![]
    } else {
        seq![b[0]] + take_fit(b.drop_first(), k - char_len(b[0]))
    }
}

/// A line to send: its text cut, at a character boundary, so that the line
/// with its `\r\n` fits the line limit.
pub open spec fn fitted(body: Seq<char>) -> Seq<char> {
    take_fit(body, MAX_LINE - 2) + seq!['\r', '\n']
}

proof fn lemma_byte_len_concat(a: Seq<char>, b: Seq<char>)
    ensures
        byte_len(a + b) == byte_len(a) + byte_len(b),
    decreases b.len(),
{
    if b.len() == 0 {
        assert(a + b =~= a);
    } else {
        assert((a + b).drop_last() =~= a + b.drop_last());
        assert((a + b).last() == b.last());
        lemma_byte_len_concat(a, b.drop_last());
    }
}

proof fn lemma_take_fit_len(b: Seq<char>, k: int)
    ensures
        byte_len(take_fit(b, k)) <= if k > 0 { k } else { 0 },
    decreases b.len(),
{
    if b.len() == 0 || char_len(b[0]) > k {
        assert(take_fit(b, k) =~= Seq::<char>::empty());
    } else {
        lemma_take_fit_len(b.drop_first(), k - char_len(b[0]));
        lemma_byte_len_concat(seq![b[0]], take_fit(b.drop_first(), k - char_len(b[0])));
        assert(seq![b[0]].drop_last() =~= Seq::<char>::empty());
        assert(seq![b[0]].last() == b[0]);
        assert(byte_len(Seq::<char>::empty()) == 0);
        assert(byte_len(seq![b[0]]) == char_len(b[0]));
    }
}

/// The line that sends `body`, cut to the line limit.
pub fn fit_line(body: &str) -> (r: String)
    ensures
        r@ == fitted(body@),
        byte_len(r@) <= MAX_LINE,
{
    let n = body.unicode_len();
    let mut left: usize = MAX_LINE - 2;
    let mut i: usize = 0;
    assert(body@.subrange(0, n as int) =~= body@);
    assert(body@.subrange(0, 0) + take_fit(body@, left as int) =~= take_fit(body@, left as int));
    while i < n && char_len_exec(body.get_char(i)) <= left
        invariant
            n == body@.len(),
            i <= n,
            left <= MAX_LINE - 2,
            take_fit(body@, MAX_LINE - 2) == body@.subrange(0, i as int) + take_fit(body@.subrange(i as int, n as int), left as int),
        decreases n - i,
    {
        let l = char_len_exec(body.get_char(i));
        proof {
            let t = body@.subrange(i as int, n as int);
            assert(t.drop_first() =~= body@.subrange(i + 1, n as int));
            assert(body@.subrange(0, i + 1) =~= body@.subrange(0, i as int) + seq![t[0]]);
            assert(take_fit(t, left as int) == seq![t[0]] + take_fit(t.drop_first(), left - l));
        }
        left = left - l;
        i = i + 1;
    }
    proof {
        let t = body@.subrange(i as int, n as int);
        assert(take_fit(t, left as int) =~= Seq::<char>::empty());
        assert(body@.subrange(0, i as int) + Seq::<char>::empty() =~= body@.subrange(0, i as int));
        reveal_strlit("\r\n");
    }
    let mut r = body.substring_char(0, i).to_owned();
    r.append("\r\n");
    proof {
        assert(r@ =~= fitted(body@));
        lemma_take_fit_len(body@, MAX_LINE - 2);
        lemma_byte_len_concat(take_fit(body@, MAX_LINE - 2), seq!['\r', '\n']);
        assert(seq!['\r', '\n'].drop_last() =~= seq!['\r']);
        assert(seq!['\r'].drop_last() =~= Seq::<char>::empty());
        assert(seq!['\r'].last() == '\r' && seq!['\r', '\n'].last() == '\n');
        assert(byte_len(Seq::<char>::empty()) == 0);
        assert(byte_len(seq!['\r']) == 1);
        assert(byte_len(seq!['\r', '\n']) == 2);
    }
    r
}

} // verus!
