//! Rendering the generated declaration file from a parsed string table.

use vstd::prelude::*;

use crate::localizable_model::{LocalizableModel, swift_property_spec};

verus! {

/// The generated lines of the declaration body: one indented property per
/// entry, in entry order.
pub open spec fn swift_body(entries: Seq<(Seq<char>, Seq<char>)>) -> Seq<char>
    decreases entries.len(),
{
    if entries.len() == 0 {
        Seq::empty()
    } else {
        swift_body(entries.drop_last()) + "    "@ + swift_property_spec(entries.last().0) + "\n"@
    }
}

/// The whole generated file: a fixed header, the declaration of each
/// entry's key, and the closing brace.
pub open spec fn swift_file_content(entries: Seq<(Seq<char>, Seq<char>)>) -> Seq<char> {
    "\nimport Foundation\n\npublic enum Title {\n"@ + swift_body(entries) + "}\n"@
}

/// Renders the declaration file for the given entries.
pub fn generate_swift_content(entries: &Vec<LocalizableModel>) -> (r: String)
    ensures
        r@ == swift_file_content(entries@.map_values(|m: LocalizableModel| m@)),
{
    let ghost em = entries@.map_values(|m: LocalizableModel| m@);
    let mut r = String::from_str("\nimport Foundation\n\npublic enum Title {\n");
    let mut i: usize = 0;
    proof {
        assert(em.take(0) =~= Seq::<(Seq<char>, Seq<char>)>::empty());
    }
    while i < entries.len()
        invariant
            i <= entries@.len(),
            em == entries@.map_values(|m: LocalizableModel| m@),
            r@ == "\nimport Foundation\n\npublic enum Title {\n"@ + swift_body(
                em.take(i as int),
            ),
        decreases entries@.len() - i,
    {
        let ghost prefix = em.take(i as int);
        r.append("    ");
        let prop = entries[i].to_swift_property();
        r.append(prop.as_str());
        r.append("\n");
        proof {
            assert(em.take(i + 1).drop_last() =~= prefix);
            assert(em.take(i + 1).last() == em[i as int]);
            assert(em[i as int].0 == entries@[i as int].key@);
            assert(r@ =~= "\nimport Foundation\n\npublic enum Title {\n"@ + swift_body(
                em.take(i + 1),
            ));
        }
        i += 1;
    }
    r.append("}\n");
    proof {
        assert(em.take(em.len() as int) =~= em);
        assert(r@ =~= swift_file_content(em));
    }
    r
}

} // verus!
