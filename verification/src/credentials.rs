//! Stored credentials, as a list held in memory. Reading the list from
//! disk and writing it back is the caller's part.

use vstd::prelude::*;
use crate::text::same_text;

verus! {

/// One stored secret: the password of `username` at `service`.
pub struct Credential {
    pub service: String,
    pub username: String,
    pub password: String,
}

/// Whether `c` is the credential of `username` at `service`.
pub open spec fn is_for(c: Credential, service: Seq<char>, username: Seq<char>) -> bool {
    c.service@ == service && c.username@ == username
}

/// The password of the first credential of `username` at `service`.
pub open spec fn stored_password(
    credentials: Seq<Credential>,
    service: Seq<char>,
    username: Seq<char>,
) -> Option<Seq<char>>
    decreases credentials.len(),
{
    if credentials.len() == 0 {
        None
    } else if is_for(credentials[0], service, username) {
        Some(credentials[0].password@)
    } else {
        stored_password(credentials.skip(1), service, username)
    }
}

/// The credentials other than those of `username` at `service`, in order.
pub open spec fn others(credentials: Seq<Credential>, service: Seq<char>, username: Seq<char>) -> Seq<
    Credential,
> {
    credentials.filter(|c: Credential| !is_for(c, service, username))
}

/// The password stored for `username` at `service`, if there is one.
pub fn load(credentials: &Vec<Credential>, service: &str, username: &str) -> (r: Option<String>)
    ensures
        r.deep_view() == stored_password(credentials@, service@, username@),
{
    let mut i: usize = 0;
    proof {
        assert(credentials@.skip(0) =~= credentials@);
    }
    while i < credentials.len()
        invariant
            i <= credentials@.len(),
            stored_password(credentials@, service@, username@) == stored_password(
                credentials@.skip(i as int),
                service@,
                username@,
            ),
        decreases credentials@.len() - i,
    {
        let c = &credentials[i];
        if same_text(c.service.as_str(), service) && same_text(c.username.as_str(), username) {
            return Some(c.password.clone());
        }
        proof {
            assert(credentials@.skip(i as int).skip(1) =~= credentials@.skip(i + 1));
        }
        i += 1;
    }
    None
}

/// Removes the credentials of `username` at `service` from the list and
/// tells whether there were any, that is, whether the list has changed.
pub fn delete(credentials: &mut Vec<Credential>, service: &str, username: &str) -> (changed: bool)
    ensures
        final(credentials)@ == others(old(credentials)@, service@, username@),
        changed == (final(credentials)@.len() < old(credentials)@.len()),
{
    let initial = credentials.len();
    let mut i: usize = 0;
    let ghost mut seen: int = 0;
    let ghost before = credentials@;
    proof {
        assert(before.take(0) =~= Seq::empty());
        assert(before.skip(0) =~= before);
        assert(credentials@ =~= others(before.take(0), service@, username@) + before.skip(0));
    }
    while i < credentials.len()
        invariant
            0 <= seen <= before.len(),
            i == others(before.take(seen), service@, username@).len(),
            i <= seen,
            credentials@ == others(before.take(seen), service@, username@) + before.skip(seen),
        decreases before.len() - seen,
    {
        let ghost kept = others(before.take(seen), service@, username@);
        proof {
            assert(credentials@[i as int] == before[seen]);
            assert(before.take(seen + 1).drop_last() =~= before.take(seen));
            assert(before.take(seen + 1).last() == before[seen]);
            reveal(Seq::filter);
        }
        let c = &credentials[i];
        if same_text(c.service.as_str(), service) && same_text(c.username.as_str(), username) {
            let _ = credentials.remove(i);
            proof {
                assert(credentials@ =~= kept + before.skip(seen + 1));
            }
        } else {
            proof {
                assert(credentials@ =~= kept.push(before[seen]) + before.skip(seen + 1));
            }
            i += 1;
        }
        proof {
            seen = seen + 1;
        }
    }
    proof {
        if seen < before.len() {
            assert(credentials@.len() == i + (before.len() - seen));
        }
        assert(before.take(seen) =~= before);
        assert(credentials@ =~= others(before, service@, username@));
    }
    credentials.len() < initial
}

/// Stores `password` for `username` at `service`: earlier credentials of
/// that user at that service leave the list, and the new one goes last.
pub fn save(credentials: &mut Vec<Credential>, service: &str, username: &str, password: &str)
    ensures
        final(credentials)@.len() >= 1,
        final(credentials)@.drop_last() == others(old(credentials)@, service@, username@),
        final(credentials)@.last().service@ == service@,
        final(credentials)@.last().username@ == username@,
        final(credentials)@.last().password@ == password@,
        stored_password(final(credentials)@, service@, username@) == Some(password@),
{
    let _ = delete(credentials, service, username);
    let ghost kept = credentials@;
    credentials.push(
        Credential {
            service: service.to_owned(),
            username: username.to_owned(),
            password: password.to_owned(),
        },
    );
    proof {
        assert(credentials@.drop_last() =~= kept);
        lemma_others_hold_none(old(credentials)@, service@, username@);
        lemma_stored_after(kept, credentials@.last(), service@, username@);
        assert(kept.push(credentials@.last()) =~= credentials@);
    }
}

/// What is left after the credentials of a user were taken out holds none
/// of that user.
pub proof fn lemma_others_hold_none(
    credentials: Seq<Credential>,
    service: Seq<char>,
    username: Seq<char>,
)
    ensures
        forall|i: int|
            0 <= i < others(credentials, service, username).len() ==> !is_for(
                #[trigger] others(credentials, service, username)[i],
                service,
                username,
            ),
        stored_password(others(credentials, service, username), service, username).is_none(),
    decreases credentials.len(),
{
    reveal(Seq::filter);
    let rest = others(credentials, service, username);
    if credentials.len() > 0 {
        lemma_others_hold_none(credentials.drop_last(), service, username);
    }
    lemma_none_stored(rest, service, username);
}

/// A list without a credential of the user yields no password for them.
pub proof fn lemma_none_stored(credentials: Seq<Credential>, service: Seq<char>, username: Seq<char>)
    requires
        forall|i: int|
            0 <= i < credentials.len() ==> !is_for(#[trigger] credentials[i], service, username),
    ensures
        stored_password(credentials, service, username).is_none(),
    decreases credentials.len(),
{
    if credentials.len() > 0 {
        lemma_none_stored(credentials.skip(1), service, username);
    }
}

/// Behind a list without a credential of the user, theirs is the one found.
pub proof fn lemma_stored_after(
    front: Seq<Credential>,
    c: Credential,
    service: Seq<char>,
    username: Seq<char>,
)
    requires
        forall|i: int| 0 <= i < front.len() ==> !is_for(#[trigger] front[i], service, username),
        is_for(c, service, username),
    ensures
        stored_password(front.push(c), service, username) == Some(c.password@),
    decreases front.len(),
{
    if front.len() > 0 {
        lemma_stored_after(front.skip(1), c, service, username);
        assert(front.push(c).skip(1) =~= front.skip(1).push(c));
    }
}

} // verus!
