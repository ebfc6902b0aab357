use vstd::prelude::*;

verus! {

/// A character that separates the parts of an account identifier.
pub open spec fn is_separator(c: char) -> bool {
    c == '-' || c == '_' || c == '.'
}

/// A character allowed in an account identifier.
pub open spec fn is_account_char(c: char) -> bool {
    ('a' <= c && c <= 'z') || ('0' <= c && c <= '9') || is_separator(c)
}

/// Whether `s` is a well-formed account identifier of the host chain: 2 to 64
/// characters among lower-case letters, digits and separators, neither
/// starting nor ending with a separator, with no two separators in a row.
pub open spec fn account_id_valid(s: Seq<char>) -> bool {
    &&& 2 <= s.len() <= 64
    &&& forall|i: int| 0 <= i < s.len() ==> is_account_char(#[trigger] s[i])
    &&& !is_separator(s[0])
    &&& !is_separator(s[s.len() - 1])
    &&& forall|i: int| 0 <= i < s.len() - 1 ==> !(is_separator(#[trigger] s[i]) && is_separator(s[i + 1]))
}

/// Relies on `near_sdk::AccountId::from_str`, which accepts the text exactly
/// when `near_sdk::env::is_valid_account_id` does (the rule stated by
/// `account_id_valid`) and then keeps it unchanged.
#[verifier::external_body]
fn parse_account_id(s: &str) -> (r: Option<String>)
    ensures
        r.is_some() == account_id_valid(s@),
        r.is_some() ==> r.unwrap()@ == s@,
{
    s.parse::<near_sdk::AccountId>().ok().map(String::from)
}

/// Identity of an account: the staking owner, the custody pool, or a token
/// contract.
#[derive(Clone, Debug, PartialEq, Eq, Hash)]
pub struct AccountId {
    pub id: String,
}

impl View for AccountId {
    type V = Seq<char>;

    open spec fn view(&self) -> Seq<char> {
        self.id@
    }
}

impl AccountId {
    /// Parses an account identifier that is known to be valid.
    pub fn from_cross_str(s: &str) -> (r: AccountId)
        requires
            account_id_valid(s@),
        ensures
            r@ == s@,
    {
        let parsed = parse_account_id(s);
        AccountId { id: parsed.unwrap() }
    }

    /// Parses an account identifier, or returns `None` when it is not valid.
    pub fn try_from_cross_str(s: &str) -> (r: Option<AccountId>)
        ensures
            r.is_some() == account_id_valid(s@),
            r.is_some() ==> r.unwrap()@ == s@,
    {
        match parse_account_id(s) {
            Some(id) => Some(AccountId { id }),
            None => None,
        }
    }

    pub fn as_str(&self) -> (r: &str)
        ensures
            r@ == self@,
    {
        self.id.as_str()
    }

    /// A copy of this identifier.
    pub fn duplicate(&self) -> (r: AccountId)
        ensures
            r@ == self@,
    {
        AccountId { id: self.id.clone() }
    }

    /// Whether both identifiers name the same account.
    pub fn same(&self, other: &AccountId) -> (r: bool)
        ensures
            r == (self@ == other@),
    {
        self.id == other.id
    }
}

} // verus!
