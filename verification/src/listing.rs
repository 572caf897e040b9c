//! Parsing of text directory listings.
//!
//! The text-listing protocol reports each entry as one line. The name is
//! taken to be the last whitespace-separated token of the line, and the
//! line is classified as a directory exactly when its first byte is `d`.
//! This is a deliberately minimal heuristic and brittle to listing-format
//! variation; entries whose kind cannot be determined are treated as
//! files. The `.` and `..` pseudo-entries are recognized so the walk can
//! skip them.

use vstd::prelude::*;

verus! {

/// Kind of a remote entry; anything not recognized as a directory is
/// treated as a file.
#[derive(Clone, Copy, Debug, PartialEq, Eq, Structural)]
pub enum EntryKind {
    File,
    Directory,
}

/// One entry of a remote directory listing: its bare name and its kind.
pub struct RemoteEntry {
    pub name: Vec<u8>,
    pub kind: EntryKind,
}

/// ASCII whitespace, as a token separator in listing lines.
pub open spec fn is_space(b: u8) -> bool {
    b == 32 || b == 9 || b == 10 || b == 13 || b == 11 || b == 12
}

/// The maximal run of non-whitespace bytes at the end of `s` (empty when
/// `s` ends with whitespace).
pub open spec fn nonspace_suffix(s: Seq<u8>) -> Seq<u8>
    decreases s.len(),
{
    if s.len() == 0 || is_space(s.last()) {
        Seq::empty()
    } else {
        nonspace_suffix(s.drop_last()).push(s.last())
    }
}

/// The last whitespace-separated token of `s`, or the empty sequence when
/// `s` holds no token at all.
pub open spec fn last_token(s: Seq<u8>) -> Seq<u8>
    decreases s.len(),
{
    if s.len() == 0 {
        Seq::empty()
    } else if is_space(s.last()) {
        last_token(s.drop_last())
    } else {
        nonspace_suffix(s)
    }
}

/// Kind read off a listing line: a directory exactly when the first byte
/// is `d`.
pub open spec fn kind_of_line(s: Seq<u8>) -> EntryKind {
    if s.len() > 0 && s[0] == 100 {
        EntryKind::Directory
    } else {
        EntryKind::File
    }
}

/// Whether a name is one of the `.` and `..` pseudo-entries.
pub open spec fn is_dot_name(name: Seq<u8>) -> bool {
    name =~= seq![46u8] || name =~= seq![46u8, 46u8]
}

fn exec_is_space(b: u8) -> (r: bool)
    ensures
        r == is_space(b),
{
    b == 32 || b == 9 || b == 10 || b == 13 || b == 11 || b == 12
}

/// Parses one listing line: the entry's name is the line's last
/// whitespace-separated token, and the entry is a directory exactly when
/// the line starts with `d`. Returns `None` when the line holds no token
/// at all, so that such a line is passed over.
pub fn parse_listing_line(line: &Vec<u8>) -> (r: Option<RemoteEntry>)
    ensures
        match r {
            Some(entry) => {
                &&& last_token(line@).len() > 0
                &&& entry.name@ == last_token(line@)
                &&& entry.kind == kind_of_line(line@)
            },
            None => last_token(line@).len() == 0,
        },
{
    let mut end: usize = line.len();
    proof {
        assert(line@.take(line@.len() as int) =~= line@);
    }
    while end > 0 && exec_is_space(line[end - 1])
        invariant
            end <= line@.len(),
            last_token(line@) == last_token(line@.take(end as int)),
        decreases end,
    {
        proof {
            let t = line@.take(end as int);
            assert(t.drop_last() =~= line@.take(end - 1));
        }
        end = end - 1;
    }
    if end == 0 {
        proof {
            assert(line@.take(0) =~= Seq::<u8>::empty());
        }
        return None;
    }
    let mut start: usize = end;
    proof {
        assert(nonspace_suffix(line@.take(end as int)) =~= nonspace_suffix(
            line@.take(end as int),
        ) + line@.subrange(end as int, end as int));
    }
    while start > 0 && !exec_is_space(line[start - 1])
        invariant
            start <= end,
            end <= line@.len(),
            !is_space(line@[end - 1]),
            nonspace_suffix(line@.take(end as int))
                == nonspace_suffix(line@.take(start as int)) + line@.subrange(
                start as int,
                end as int,
            ),
        decreases start,
    {
        proof {
            let t = line@.take(start as int);
            assert(t.drop_last() =~= line@.take(start - 1));
            assert(
                nonspace_suffix(line@.take(start - 1)).push(line@[start - 1])
                    + line@.subrange(start as int, end as int)
                =~= nonspace_suffix(line@.take(start - 1))
                    + line@.subrange(start - 1, end as int)
            );
        }
        start = start - 1;
    }
    proof {
        let t0 = line@.take(start as int);
        assert(t0.len() == 0 || is_space(t0.last()));
        assert(nonspace_suffix(line@.take(start as int)) =~= Seq::<u8>::empty());
        assert(nonspace_suffix(line@.take(end as int)) =~= line@.subrange(
            start as int,
            end as int,
        ));
        let t = line@.take(end as int);
        assert(t.len() > 0 && !is_space(t.last()));
        assert(last_token(line@) == line@.subrange(start as int, end as int));
    }
    let mut name: Vec<u8> = Vec::new();
    let mut i: usize = start;
    while i < end
        invariant
            start <= i <= end,
            end <= line@.len(),
            name@ == line@.subrange(start as int, i as int),
        decreases end - i,
    {
        name.push(line[i]);
        i = i + 1;
        proof {
            assert(name@ =~= line@.subrange(start as int, i as int));
        }
    }
    let kind = if line.len() > 0 && line[0] == 100 {
        EntryKind::Directory
    } else {
        EntryKind::File
    };
    Some(RemoteEntry { name, kind })
}

/// Whether `name` is the `.` or `..` pseudo-entry, which the walk skips.
pub fn is_dot_entry(name: &Vec<u8>) -> (r: bool)
    ensures
        r == is_dot_name(name@),
{
    if name.len() == 1 && name[0] == 46 {
        proof {
            assert(name@ =~= seq![46u8]);
        }
        true
    } else if name.len() == 2 && name[0] == 46 && name[1] == 46 {
        proof {
            assert(name@ =~= seq![46u8, 46u8]);
        }
        true
    } else {
        proof {
            assert(!is_dot_name(name@));
        }
        false
    }
}

} // verus!
