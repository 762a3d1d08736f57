//! One parsed `"key" = "value";` line and the declaration derived from it.

use vstd::prelude::*;

verus! {

/// One entry of a string-table file: a translation key and its value.
#[derive(Debug)]
pub struct LocalizableModel {
    pub key: String,
    pub value: String,
}

impl View for LocalizableModel {
    type V = (Seq<char>, Seq<char>);

    open spec fn view(&self) -> (Seq<char>, Seq<char>) {
        (self.key@, self.value@)
    }
}

/// The generated declaration for a key: a static property whose name and
/// whose looked-up identifier are both the key itself.
pub open spec fn swift_property_spec(key: Seq<char>) -> Seq<char> {
    "public static let "@ + key + ": NSLocalizedString = .init(\""@ + key + "\", comment: .empty)"@
}

impl LocalizableModel {
    /// Renders the generated declaration for this entry's key.
    pub fn to_swift_property(&self) -> (r: String)
        ensures
            r@ == swift_property_spec(self.key@),
    {
        let mut r = String::from_str("public static let ");
        r.append(self.key.as_str());
        r.append(": NSLocalizedString = .init(\"");
        r.append(self.key.as_str());
        r.append("\", comment: .empty)");
        proof {
            assert(r@ =~= swift_property_spec(self.key@));
        }
        r
    }
}

} // verus!
