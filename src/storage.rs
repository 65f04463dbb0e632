use core::cmp::Ordering;
use vstd::prelude::*;
use vstd::utf8::{decode_utf8, encode_utf8, valid_utf8};

use crate::crypto::{
    decrypt_outcome, derived_key, is_sealed_blob, lemma_encrypt_decrypt_round_trip, seals_with,
    SecretsCrypto, NONCE_LEN, PLAINTEXT_MAX,
};
use crate::error::VaultError;
use crate::order::{
    compare_names, lemma_name_lt_irreflexive, lemma_name_lt_total, lemma_name_lt_transitive,
    name_lt,
};

verus! {

/// The collection of secrets: entries kept in strictly increasing name order,
/// so that each name occurs once.
pub struct SecretsData {
    entries: Vec<(String, String)>,
    secrets: Ghost<Map<Seq<char>, Seq<char>>>,
}

impl View for SecretsData {
    type V = Map<Seq<char>, Seq<char>>;

    /// Each name mapped to its value.
    closed spec fn view(&self) -> Map<Seq<char>, Seq<char>> {
        self.secrets@
    }
}

impl SecretsData {
    pub closed spec fn wf(&self) -> bool {
        &&& forall|i: int, j: int|
            0 <= i < j < self.entries@.len() ==> name_lt(
                #[trigger] self.entries@[i].0@,
                #[trigger] self.entries@[j].0@,
            )
        &&& forall|i: int|
            0 <= i < self.entries@.len() ==> {
                &&& self.secrets@.contains_key(#[trigger] self.entries@[i].0@)
                &&& self.secrets@[self.entries@[i].0@] == self.entries@[i].1@
            }
        &&& forall|k: Seq<char>|
            #[trigger] self.secrets@.contains_key(k) ==> exists|i: int|
                0 <= i < self.entries@.len() && (#[trigger] self.entries@[i].0@) == k
    }

    /// An empty collection.
    pub fn new() -> (r: Self)
        ensures
            r.wf(),
            r@ == Map::<Seq<char>, Seq<char>>::empty(),
    {
        SecretsData { entries: Vec::new(), secrets: Ghost(Map::empty()) }
    }

    /// Where `name` stands or would stand, and whether it is there.
    fn find(&self, name: &str) -> (r: (usize, bool))
        requires
            self.wf(),
        ensures
            r.0 <= self.entries@.len(),
            r.1 == self@.contains_key(name@),
            r.1 ==> r.0 < self.entries@.len() && self.entries@[r.0 as int].0@ == name@,
            forall|j: int| 0 <= j < r.0 ==> name_lt(#[trigger] self.entries@[j].0@, name@),
            forall|j: int|
                r.0 <= j < self.entries@.len() && !(r.1 && j == r.0) ==> name_lt(
                    name@,
                    #[trigger] self.entries@[j].0@,
                ),
    {
        let mut i: usize = 0;
        while i < self.entries.len()
            invariant
                self.wf(),
                i <= self.entries@.len(),
                forall|j: int| 0 <= j < i ==> name_lt(#[trigger] self.entries@[j].0@, name@),
            decreases self.entries@.len() - i,
        {
            match compare_names(self.entries[i].0.as_str(), name) {
                Ordering::Less => {
                    i = i + 1;
                },
                Ordering::Equal => {
                    return (i, true);
                },
                Ordering::Greater => {
                    proof {
                        self.lemma_after(i as int, name@);
                    }
                    return (i, false);
                },
            }
        }
        proof {
            self.lemma_after(i as int, name@);
        }
        (i, false)
    }

    /// Entries from `pos` on are all after `name` when the one at `pos` is.
    proof fn lemma_after(&self, pos: int, name: Seq<char>)
        requires
            self.wf(),
            0 <= pos <= self.entries@.len(),
            forall|j: int| 0 <= j < pos ==> name_lt(#[trigger] self.entries@[j].0@, name),
            pos < self.entries@.len() ==> name_lt(name, self.entries@[pos].0@),
        ensures
            forall|j: int|
                pos <= j < self.entries@.len() ==> name_lt(name, #[trigger] self.entries@[j].0@),
            !self@.contains_key(name),
    {
        assert forall|j: int| pos <= j < self.entries@.len() implies name_lt(
            name,
            #[trigger] self.entries@[j].0@,
        ) by {
            if j > pos {
                lemma_name_lt_transitive(name, self.entries@[pos].0@, self.entries@[j].0@);
            }
        }
        if self@.contains_key(name) {
            let k = choose|k: int| 0 <= k < self.entries@.len() && (#[trigger] self.entries@[k].0@) == name;
            lemma_name_lt_irreflexive(name);
        }
    }

    /// Inserts `name` with `value`, replacing the value it had.
    pub fn upsert(&mut self, name: &str, value: &str)
        requires
            old(self).wf(),
        ensures
            final(self).wf(),
            final(self)@ == old(self)@.insert(name@, value@),
    {
        let (pos, found) = self.find(name);
        let entry = (name.to_owned(), value.to_owned());
        let ghost before = self.entries@;
        if found {
            self.entries.set(pos, entry);
        } else {
            self.entries.insert(pos, entry);
        }
        self.secrets = Ghost(self.secrets@.insert(name@, value@));
        proof {
            let after = self.entries@;
            let n = name@;
            if found {
                assert forall|i: int, j: int| 0 <= i < j < after.len() implies name_lt(
                    #[trigger] after[i].0@,
                    #[trigger] after[j].0@,
                ) by {
                    assert(before[i].0@ == after[i].0@ || i == pos);
                    assert(before[j].0@ == after[j].0@ || j == pos);
                }
                assert forall|i: int| 0 <= i < after.len() implies {
                    &&& self.secrets@.contains_key(#[trigger] after[i].0@)
                    &&& self.secrets@[after[i].0@] == after[i].1@
                } by {
                    if i != pos {
                        assert(after[i] == before[i]);
                        if after[i].0@ == n {
                            lemma_name_lt_irreflexive(n);
                        }
                    }
                }
                assert forall|k: Seq<char>| #[trigger] self.secrets@.contains_key(k) implies exists|i: int|
                    0 <= i < after.len() && (#[trigger] after[i].0@) == k by {
                    if k == n {
                        assert(after[pos as int].0@ == k);
                    } else {
                        let i0 = choose|i: int| 0 <= i < before.len() && (#[trigger] before[i].0@) == k;
                        assert(after[i0].0@ == k);
                    }
                }
            } else {
                assert forall|i: int, j: int| 0 <= i < j < after.len() implies name_lt(
                    #[trigger] after[i].0@,
                    #[trigger] after[j].0@,
                ) by {
                    if i < pos && j > pos {
                        assert(after[i] == before[i]);
                        assert(after[j] == before[j - 1]);
                        lemma_name_lt_transitive(before[i].0@, n, before[j - 1].0@);
                    } else if i == pos {
                        assert(after[j] == before[j - 1]);
                    } else if j == pos {
                        assert(after[i] == before[i]);
                    } else if j < pos {
                        assert(after[i] == before[i]);
                        assert(after[j] == before[j]);
                    } else {
                        assert(after[i] == before[i - 1]);
                        assert(after[j] == before[j - 1]);
                    }
                }
                assert forall|i: int| 0 <= i < after.len() implies {
                    &&& self.secrets@.contains_key(#[trigger] after[i].0@)
                    &&& self.secrets@[after[i].0@] == after[i].1@
                } by {
                    if i < pos {
                        assert(after[i] == before[i]);
                        if after[i].0@ == n {
                            lemma_name_lt_irreflexive(n);
                        }
                    } else if i > pos {
                        assert(after[i] == before[i - 1]);
                        if after[i].0@ == n {
                            lemma_name_lt_irreflexive(n);
                        }
                    }
                }
                assert forall|k: Seq<char>| #[trigger] self.secrets@.contains_key(k) implies exists|i: int|
                    0 <= i < after.len() && (#[trigger] after[i].0@) == k by {
                    if k == n {
                        assert(after[pos as int].0@ == k);
                    } else {
                        let i0 = choose|i: int| 0 <= i < before.len() && (#[trigger] before[i].0@) == k;
                        if i0 < pos {
                            assert(after[i0].0@ == k);
                        } else {
                            assert(after[i0 + 1].0@ == k);
                        }
                    }
                }
            }
        }
    }

    /// Removes `name`; says whether it was there.
    pub fn remove(&mut self, name: &str) -> (r: bool)
        requires
            old(self).wf(),
        ensures
            final(self).wf(),
            r == old(self)@.contains_key(name@),
            final(self)@ == old(self)@.remove(name@),
    {
        let (pos, found) = self.find(name);
        if !found {
            assert(self@ =~= self@.remove(name@));
            return false;
        }
        let ghost before = self.entries@;
        let _ = self.entries.remove(pos);
        self.secrets = Ghost(self.secrets@.remove(name@));
        proof {
            let after = self.entries@;
            let n = name@;
            assert forall|i: int, j: int| 0 <= i < j < after.len() implies name_lt(
                #[trigger] after[i].0@,
                #[trigger] after[j].0@,
            ) by {
                if j < pos {
                    assert(after[i] == before[i]);
                    assert(after[j] == before[j]);
                } else if i < pos {
                    assert(after[i] == before[i]);
                    assert(after[j] == before[j + 1]);
                } else {
                    assert(after[i] == before[i + 1]);
                    assert(after[j] == before[j + 1]);
                }
            }
            assert forall|i: int| 0 <= i < after.len() implies {
                &&& self.secrets@.contains_key(#[trigger] after[i].0@)
                &&& self.secrets@[after[i].0@] == after[i].1@
            } by {
                if i < pos {
                    assert(after[i] == before[i]);
                    assert(name_lt(before[i].0@, before[pos as int].0@));
                } else {
                    assert(after[i] == before[i + 1]);
                    assert(name_lt(before[pos as int].0@, before[i + 1].0@));
                }
                if after[i].0@ == n {
                    lemma_name_lt_irreflexive(n);
                }
            }
            assert forall|k: Seq<char>| #[trigger] self.secrets@.contains_key(k) implies exists|i: int|
                0 <= i < after.len() && (#[trigger] after[i].0@) == k by {
                let i0 = choose|i: int| 0 <= i < before.len() && (#[trigger] before[i].0@) == k;
                if i0 < pos {
                    assert(after[i0].0@ == k);
                } else {
                    assert(i0 != pos);
                    assert(after[i0 - 1].0@ == k);
                }
            }
        }
        true
    }

    /// The value of `name`, if it is there.
    pub fn get(&self, name: &str) -> (r: Option<String>)
        requires
            self.wf(),
        ensures
            match r {
                Some(v) => self@.contains_key(name@) && v@ == self@[name@],
                None => !self@.contains_key(name@),
            },
    {
        let (pos, found) = self.find(name);
        if found {
            Some(self.entries[pos].1.clone())
        } else {
            None
        }
    }

    /// All names, in increasing order.
    pub fn names(&self) -> (r: Vec<String>)
        requires
            self.wf(),
        ensures
            forall|i: int, j: int| 0 <= i < j < r@.len() ==> name_lt(#[trigger] r@[i]@, #[trigger] r@[j]@),
            forall|k: Seq<char>| self@.contains_key(k) <==> exists|i: int| 0 <= i < r@.len() && (#[trigger] r@[i]@) == k,
    {
        let mut names: Vec<String> = Vec::new();
        let mut i: usize = 0;
        while i < self.entries.len()
            invariant
                self.wf(),
                i <= self.entries@.len(),
                names@.len() == i,
                forall|j: int| 0 <= j < i ==> (#[trigger] names@[j])@ == self.entries@[j].0@,
            decreases self.entries@.len() - i,
        {
            names.push(self.entries[i].0.clone());
            i = i + 1;
        }
        proof {
            assert forall|i: int, j: int| 0 <= i < j < names@.len() implies name_lt(
                #[trigger] names@[i]@,
                #[trigger] names@[j]@,
            ) by {
                assert(name_lt(self.entries@[i].0@, self.entries@[j].0@));
            }
            assert forall|k: Seq<char>| self@.contains_key(k) implies exists|i: int|
                0 <= i < names@.len() && (#[trigger] names@[i]@) == k by {
                let i0 = choose|i: int| 0 <= i < self.entries@.len() && (#[trigger] self.entries@[i].0@) == k;
                assert(names@[i0]@ == k);
            }
        }
        names
    }
}

/// Relies on `String::from_utf8`: it accepts exactly the valid UTF-8 byte
/// sequences and yields the characters they encode.
#[verifier::external_body]
fn utf8_text(bytes: Vec<u8>) -> (r: Option<String>)
    ensures
        r is Some <==> valid_utf8(bytes@),
        r matches Some(s) ==> s@ == decode_utf8(bytes@),
{
    String::from_utf8(bytes).ok()
}

/// The characters of a file's content, if there is a file.
pub open spec fn stored_view(stored: Option<&str>) -> Option<Seq<char>> {
    match stored {
        Some(t) => Some(t@),
        None => None,
    }
}

/// What loading a vault file gives: `None` for an absent or empty file (an
/// empty vault), otherwise the decrypted text. A blob that is not hex or
/// too short, or whose opened payload is not UTF-8 text, is a corrupt store.
pub open spec fn load_outcome(key: Seq<u8>, stored: Option<Seq<char>>) -> Result<
    Option<Seq<char>>,
    VaultError,
> {
    match stored {
        None => Ok(None),
        Some(text) => if text.len() == 0 {
            Ok(None)
        } else {
            match decrypt_outcome(key, text) {
                Ok(plain) => if valid_utf8(plain) {
                    Ok(Some(decode_utf8(plain)))
                } else {
                    Err(VaultError::CorruptStore)
                },
                Err(VaultError::Authentication) => Err(VaultError::Authentication),
                Err(_) => Err(VaultError::CorruptStore),
            }
        },
    }
}

/// An open vault: the key derived from the master password and the secrets
/// currently held. The file it is kept in is the caller's: `load_data` reads
/// what the file held, and after each change that `add_secret`,
/// `remove_secret` (when it returns `true`) or `change_password` reports,
/// `save_data` gives the blob that must replace the file.
pub struct SecretsStorage {
    crypto: SecretsCrypto,
    data: SecretsData,
}

impl SecretsStorage {
    pub closed spec fn wf(&self) -> bool {
        self.crypto.wf() && self.data.wf()
    }

    /// The key that the vault is sealed with.
    pub closed spec fn key(&self) -> Seq<u8> {
        self.crypto@
    }

    /// The secrets held: each name mapped to its value.
    pub closed spec fn secrets(&self) -> Map<Seq<char>, Seq<char>> {
        self.data@
    }

    /// An empty vault under the key derived from `password`.
    pub fn new(password: &str) -> (r: Self)
        ensures
            r.wf(),
            r.key() == derived_key(password@),
            r.secrets() == Map::<Seq<char>, Seq<char>>::empty(),
    {
        SecretsStorage { crypto: SecretsCrypto::new(password), data: SecretsData::new() }
    }

    /// A new vault: the password and its confirmation must agree.
    pub fn create(password: &str, confirmation: &str) -> (r: Result<Self, VaultError>)
        ensures
            match r {
                Ok(s) => password@ == confirmation@ && s.wf() && s.key() == derived_key(password@)
                    && s.secrets() == Map::<Seq<char>, Seq<char>>::empty(),
                Err(e) => password@ != confirmation@ && e == VaultError::PasswordMismatch,
            },
    {
        if !same_text(password, confirmation) {
            return Err(VaultError::PasswordMismatch);
        }
        Ok(Self::new(password))
    }

    /// Opens what the vault file held (`None` when there is no file) under
    /// this vault's key, giving the serialized collection, if any.
    pub fn load_data(&self, stored: Option<&str>) -> (r: Result<Option<String>, VaultError>)
        requires
            self.wf(),
        ensures
            match r {
                Ok(Some(text)) => load_outcome(self.key(), stored_view(stored)) == Ok::<
                    Option<Seq<char>>,
                    VaultError,
                >(Some(text@)),
                Ok(None) => load_outcome(self.key(), stored_view(stored)) == Ok::<
                    Option<Seq<char>>,
                    VaultError,
                >(None),
                Err(e) => load_outcome(self.key(), stored_view(stored)) == Err::<
                    Option<Seq<char>>,
                    VaultError,
                >(e),
            },
    {
        match stored {
            None => Ok(None),
            Some(text) => {
                if text.is_empty() {
                    return Ok(None);
                }
                match self.crypto.decrypt(text) {
                    Ok(plain) => match utf8_text(plain) {
                        Some(serialized) => Ok(Some(serialized)),
                        None => Err(VaultError::CorruptStore),
                    },
                    Err(VaultError::Authentication) => Err(VaultError::Authentication),
                    Err(_) => Err(VaultError::CorruptStore),
                }
            },
        }
    }

    /// Seals the serialized collection under this vault's key; the blob is
    /// what the vault file must hold.
    pub fn save_data(&self, serialized: &[u8]) -> (r: Result<String, VaultError>)
        requires
            self.wf(),
        ensures
            serialized@.len() > PLAINTEXT_MAX ==> r is Err,
            r matches Ok(blob) ==> is_sealed_blob(self.key(), serialized@, blob@),
            r matches Err(e) ==> e == VaultError::Encryption,
    {
        self.crypto.encrypt(serialized)
    }

    /// Sets `name` to `value`, whether or not it was there.
    pub fn add_secret(&mut self, name: &str, value: &str)
        requires
            old(self).wf(),
        ensures
            final(self).wf(),
            final(self).key() == old(self).key(),
            final(self).secrets() == old(self).secrets().insert(name@, value@),
    {
        self.data.upsert(name, value);
    }

    /// The value of `name`, if it is there.
    pub fn get_secret(&self, name: &str) -> (r: Option<String>)
        requires
            self.wf(),
        ensures
            match r {
                Some(v) => self.secrets().contains_key(name@) && v@ == self.secrets()[name@],
                None => !self.secrets().contains_key(name@),
            },
    {
        self.data.get(name)
    }

    /// All names, each once, in increasing byte order.
    pub fn list_secrets(&self) -> (r: Vec<String>)
        requires
            self.wf(),
        ensures
            forall|i: int, j: int| 0 <= i < j < r@.len() ==> name_lt(#[trigger] r@[i]@, #[trigger] r@[j]@),
            forall|k: Seq<char>|
                self.secrets().contains_key(k) <==> exists|i: int| 0 <= i < r@.len() && (#[trigger] r@[i]@) == k,
    {
        self.data.names()
    }

    /// Removes `name`; says whether it was there, and so whether the vault
    /// changed and must be saved.
    pub fn remove_secret(&mut self, name: &str) -> (r: bool)
        requires
            old(self).wf(),
        ensures
            final(self).wf(),
            r == old(self).secrets().contains_key(name@),
            final(self).key() == old(self).key(),
            final(self).secrets() == old(self).secrets().remove(name@),
    {
        self.data.remove(name)
    }

    /// Re-keys the vault from a new password, entered twice; the secrets are
    /// kept and must then be saved under the new key.
    pub fn change_password(&mut self, new_password: &str, confirmation: &str) -> (r: Result<(), VaultError>)
        requires
            old(self).wf(),
        ensures
            final(self).wf(),
            final(self).secrets() == old(self).secrets(),
            match r {
                Ok(()) => new_password@ == confirmation@ && final(self).key() == derived_key(new_password@),
                Err(e) => new_password@ != confirmation@ && e == VaultError::PasswordMismatch
                    && final(self).key() == old(self).key(),
            },
    {
        if !same_text(new_password, confirmation) {
            return Err(VaultError::PasswordMismatch);
        }
        self.crypto = SecretsCrypto::new(new_password);
        Ok(())
    }
}

/// Whether two texts are equal.
fn same_text(a: &str, b: &str) -> (r: bool)
    ensures
        r == (a@ == b@),
{
    match compare_names(a, b) {
        Ordering::Equal => true,
        _ => false,
    }
}

/// Adding a name twice leaves one entry for it, holding the second value.
pub proof fn lemma_upsert_overwrites(
    secrets: Map<Seq<char>, Seq<char>>,
    name: Seq<char>,
    first: Seq<char>,
    second: Seq<char>,
)
    ensures
        secrets.insert(name, first).insert(name, second) == secrets.insert(name, second),
        secrets.insert(name, first).insert(name, second)[name] == second,
{
    assert(secrets.insert(name, first).insert(name, second) =~= secrets.insert(name, second));
}

/// Removing a missing name changes nothing; removing a name that was added
/// leaves it absent.
pub proof fn lemma_remove_after_add(secrets: Map<Seq<char>, Seq<char>>, name: Seq<char>, value: Seq<char>)
    ensures
        !secrets.contains_key(name) ==> secrets.remove(name) == secrets,
        !secrets.insert(name, value).remove(name).contains_key(name),
{
    assert(!secrets.contains_key(name) ==> secrets.remove(name) =~= secrets);
}

/// A blob saved under the key of a password loads back, under the key of the
/// same password, to the text that was saved.
pub proof fn lemma_reopen_reads_back(password: Seq<char>, serialized: Seq<char>, blob: Seq<char>)
    requires
        is_sealed_blob(derived_key(password), encode_utf8(serialized), blob),
    ensures
        load_outcome(derived_key(password), Some(blob)) == Ok::<Option<Seq<char>>, VaultError>(
            Some(serialized),
        ),
{
    broadcast use vstd::utf8::encode_utf8_valid_utf8, vstd::utf8::encode_utf8_decode_utf8;

    lemma_encrypt_decrypt_round_trip(password, encode_utf8(serialized), blob);
    let nonce = choose|nonce: Seq<u8>|
        #[trigger] seals_with(derived_key(password), nonce, encode_utf8(serialized), blob);
    assert(blob.len() >= 2 * NONCE_LEN);
}

} // verus!
