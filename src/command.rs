//! The line protocol of the command-line client: `get <key>` and
//! `set <key> <value>`, fields separated by single spaces, newlines ignored.

use vstd::prelude::*;
use crate::protocol::{Request, RequestModel};

verus! {

/// The fields of `b` between spaces; two spaces in a row make an empty field.
pub open spec fn fields(b: Seq<u8>) -> Seq<Seq<u8>>
    decreases b.len(),
{
    if b.len() == 0 {
        seq![Seq::empty()]
    } else {
        let f = fields(b.drop_last());
        if b.last() == 0x20 {
            f.push(Seq::empty())
        } else {
            f.update(f.len() - 1, f.last().push(b.last()))
        }
    }
}

/// `b` without its newline bytes.
pub open spec fn strip_newlines(b: Seq<u8>) -> Seq<u8>
    decreases b.len(),
{
    if b.len() == 0 {
        Seq::empty()
    } else if b.last() == 0x0a {
        strip_newlines(b.drop_last())
    } else {
        strip_newlines(b.drop_last()).push(b.last())
    }
}

/// The request a line asks for: `get` with a key, or `set` with a key and a
/// value; fields past those are ignored, and any other line asks for nothing.
pub open spec fn command_of(line: Seq<u8>) -> Option<RequestModel> {
    let f = fields(strip_newlines(line));
    if f[0] == seq![0x67u8, 0x65u8, 0x74u8] && f.len() >= 2 {
        Some(RequestModel::Get { key: f[1] })
    } else if f[0] == seq![0x73u8, 0x65u8, 0x74u8] && f.len() >= 3 {
        Some(RequestModel::Put { key: f[1], value: Some(f[2]) })
    } else {
        None
    }
}

proof fn lemma_fields_nonempty(b: Seq<u8>)
    ensures
        fields(b).len() >= 1,
    decreases b.len(),
{
    if b.len() > 0 {
        lemma_fields_nonempty(b.drop_last());
    }
}

fn is_word(f: &Vec<u8>, w: &[u8; 3]) -> (r: bool)
    ensures
        r == (f@ == w@),
{
    if f.len() != 3 {
        assert(f@.len() != w@.len());
        return false;
    }
    let r = f[0] == w[0] && f[1] == w[1] && f[2] == w[2];
    if r {
        assert(f@ =~= w@);
    }
    r
}

/// The request a line of the client asks for, if any.
pub fn parse_command(line: &[u8]) -> (r: Option<Request>)
    ensures
        match r {
            Some(req) => command_of(line@) == Some(req@),
            None => command_of(line@) is None,
        },
{
    let mut done: Vec<Vec<u8>> = Vec::new();
    let mut current: Vec<u8> = Vec::new();
    let mut i: usize = 0;
    let ghost mut stripped: Seq<u8> = Seq::empty();
    while i < line.len()
        invariant
            i <= line@.len(),
            stripped == strip_newlines(line@.subrange(0, i as int)),
            fields(stripped) == done@.map_values(|v: Vec<u8>| v@).push(current@),
        decreases line@.len() - i,
    {
        let c = line[i];
        let ghost prefix = line@.subrange(0, i + 1);
        assert(prefix.drop_last() =~= line@.subrange(0, i as int));
        assert(prefix.last() == c);
        let ghost before = done@.map_values(|v: Vec<u8>| v@);
        if c == 0x0a {
        } else if c == 0x20 {
            let ghost full = current@;
            done.push(current);
            current = Vec::new();
            proof {
                stripped = stripped.push(c);
                assert(stripped.drop_last() =~= strip_newlines(line@.subrange(0, i as int)));
            }
            assert(done@.map_values(|v: Vec<u8>| v@) =~= before.push(full));
            assert(current@ =~= Seq::<u8>::empty());
            assert(fields(stripped) =~= done@.map_values(|v: Vec<u8>| v@).push(current@));
        } else {
            let ghost cur = current@;
            current.push(c);
            proof {
                stripped = stripped.push(c);
                assert(stripped.drop_last() =~= strip_newlines(line@.subrange(0, i as int)));
            }
            assert(done@.map_values(|v: Vec<u8>| v@) =~= before);
            assert(fields(stripped) =~= done@.map_values(|v: Vec<u8>| v@).push(current@));
        }
        i = i + 1;
    }
    assert(line@.subrange(0, line@.len() as int) =~= line@);
    done.push(current);
    let ghost f = fields(strip_newlines(line@));
    assert(f =~= done@.map_values(|v: Vec<u8>| v@));
    proof {
        lemma_fields_nonempty(strip_newlines(line@));
    }
    assert(done@[0]@ == f[0]);
    if is_word(&done[0], &[0x67u8, 0x65u8, 0x74u8]) && done.len() >= 2 {
        assert(seq![0x67u8, 0x65u8, 0x74u8] =~= [0x67u8, 0x65u8, 0x74u8]@);
        assert(done@[1]@ == f[1]);
        let key = done.swap_remove(1);
        return Some(Request::Get { key });
    }
    assert(seq![0x67u8, 0x65u8, 0x74u8] =~= [0x67u8, 0x65u8, 0x74u8]@);
    assert(seq![0x73u8, 0x65u8, 0x74u8] =~= [0x73u8, 0x65u8, 0x74u8]@);
    if is_word(&done[0], &[0x73u8, 0x65u8, 0x74u8]) && done.len() >= 3 {
        assert(done@[1]@ == f[1]);
        assert(done@[2]@ == f[2]);
        let value = done.swap_remove(2);
        let key = done.swap_remove(1);
        return Some(Request::Put { key, value: Some(value) });
    }
    None
}

} // verus!
