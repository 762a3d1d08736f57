//! Rendering the placeholder entries appended for missing keys.
//!
//! For each missing key the injector appends one line `"KEY" = "";` to the
//! lagging file; prior content is never rewritten.

use vstd::prelude::*;

verus! {

/// The placeholder line appended for one missing key, newline included.
pub open spec fn placeholder_line(key: Seq<char>) -> Seq<char> {
    "\""@ + key + "\" = \"\";\n"@
}

/// The text appended for a list of missing keys: one placeholder line per
/// key, in the given order.
pub open spec fn placeholder_block(keys: Seq<String>) -> Seq<char>
    decreases keys.len(),
{
    if keys.len() == 0 {
        Seq::empty()
    } else {
        placeholder_block(keys.drop_last()) + placeholder_line(keys.last()@)
    }
}

/// Renders the placeholder lines for the given missing keys.
pub fn render_missing_keys(missing_keys: &Vec<String>) -> (r: String)
    ensures
        r@ == placeholder_block(missing_keys@),
{
    let mut r = String::new();
    let mut i: usize = 0;
    proof {
        assert(missing_keys@.take(0) =~= Seq::<String>::empty());
    }
    while i < missing_keys.len()
        invariant
            i <= missing_keys@.len(),
            r@ == placeholder_block(missing_keys@.take(i as int)),
        decreases missing_keys@.len() - i,
    {
        let ghost prefix = missing_keys@.take(i as int);
        r.append("\"");
        r.append(missing_keys[i].as_str());
        r.append("\" = \"\";\n");
        proof {
            assert(missing_keys@.take(i + 1).drop_last() =~= prefix);
            assert(missing_keys@.take(i + 1).last() == missing_keys@[i as int]);
            assert(r@ =~= placeholder_block(prefix) + placeholder_line(missing_keys@[i as int]@));
        }
        i += 1;
    }
    proof {
        assert(missing_keys@.take(missing_keys@.len() as int) =~= missing_keys@);
    }
    r
}

/// The content of a file after injection: the old content unaltered, with
/// the placeholder lines appended at the end in the given order.
pub fn append_missing_keys(content: &str, missing_keys: &Vec<String>) -> (r: String)
    ensures
        r@ == content@ + placeholder_block(missing_keys@),
{
    let mut r = content.to_owned();
    let block = render_missing_keys(missing_keys);
    r.append(block.as_str());
    r
}

} // verus!
