//! Which contract is meant.

use vstd::prelude::*;
use crate::text::letters;

verus! {

/// The place of the last `:` in a text, or -1.
pub open spec fn last_colon(text: Seq<char>) -> int
    decreases text.len(),
{
    if text.len() == 0 {
        -1
    } else if text.last() == ':' {
        text.len() - 1
    } else {
        last_colon(text.drop_last())
    }
}

/// A contract by its name and, where it is known, its file.
#[derive(Clone, Copy, Debug, PartialEq, Eq)]
pub struct ContractInfoRef<'a> {
    pub path: Option<&'a str>,
    pub name: &'a str,
}

impl<'a> ContractInfoRef<'a> {
    /// Reads `<path>:<contractname>`, where the path and its `:` may be missing. The last `:`
    /// separates the two.
    pub fn new(text: &'a str) -> (r: ContractInfoRef<'a>)
        ensures
            last_colon(text@) < 0 ==> r.path is None && r.name@ == text@,
            last_colon(text@) >= 0 ==> {
                &&& r.path matches Some(path) && path@ == text@.take(last_colon(text@))
                &&& r.name@ == text@.skip(last_colon(text@) + 1)
            },
    {
        let cs: Vec<char> = letters(text);
        let mut i: usize = cs.len();
        assert(text@.take(text@.len() as int) =~= text@);
        while i > 0 && cs[i - 1] != ':'
            invariant
                i <= cs.len(),
                cs@ == text@,
                last_colon(text@) == last_colon(text@.take(i as int)),
            decreases i,
        {
            assert(text@.take(i as int).drop_last() =~= text@.take(i - 1));
            i = i - 1;
        }
        if i == 0 {
            ContractInfoRef { path: None, name: text }
        } else {
            assert(text@.take(i as int).last() == ':');
            assert(text@.subrange(0, i - 1) =~= text@.take(i - 1));
            assert(text@.subrange(i as int, cs@.len() as int) =~= text@.skip(i as int));
            ContractInfoRef {
                path: Some(text.substring_char(0, i - 1)),
                name: text.substring_char(i, cs.len()),
            }
        }
    }
}

/// A path and a name that are written as one text with `:` between them are read back from it,
/// where the name has no `:`.
pub proof fn law_info_is_read_back(path: Seq<char>, name: Seq<char>)
    requires
        !name.contains(':'),
    ensures
        last_colon(path + seq![':'] + name) == path.len(),
        (path + seq![':'] + name).take(path.len() as int) == path,
        (path + seq![':'] + name).skip(path.len() as int + 1) == name,
        last_colon(name) < 0,
    decreases name.len(),
{
    let text = path + seq![':'] + name;
    assert(text.take(path.len() as int) =~= path);
    assert(text.skip(path.len() as int + 1) =~= name);
    if name.len() > 0 {
        let shorter = name.drop_last();
        assert(name.contains(name.last()));
        assert forall|i: int| 0 <= i < shorter.len() implies shorter[i] != ':' by {
            assert(name.contains(name[i]));
        }
        law_info_is_read_back(path, shorter);
        assert(text.drop_last() =~= path + seq![':'] + shorter);
    }
}

} // verus!
