//! Users and their balances.
use crate::decimal::Dec;
use crate::ext::new_id;
use crate::position::views;
use crate::text::text_eq;
use vstd::hash_map::StringHashMap;
use vstd::prelude::*;

verus! {

/// A user of the exchange.
pub struct User {
    pub userid: String,
    pub name: String,
    pub email: String,
    pub password_hash: String,
    pub balance: Dec,
    pub quantity: Dec,
}

/// The starting balance of a user: 100000.000.
pub open spec fn starting_balance() -> Dec {
    Dec::build(100000000, 3)
}

/// The starting quantity of a user: 10.
pub open spec fn starting_quantity() -> Dec {
    Dec::build(10, 0)
}

impl User {
    /// A new user with a fresh identifier, the starting balance 100000.000
    /// and quantity 10. The password arrives already hashed.
    pub fn new(name: String, email: String, password_hash: String) -> (r: User)
        ensures
            r.name == name,
            r.email == email,
            r.password_hash == password_hash,
            r.balance == starting_balance(),
            r.quantity == starting_quantity(),
            r.userid@.len() == 21,
    {
        User {
            name,
            email,
            password_hash,
            userid: new_id(),
            balance: Dec::new(100000000, 3).unwrap(),
            quantity: Dec::new(10, 0).unwrap(),
        }
    }

    /// A field-for-field copy.
    pub fn duplicate(&self) -> (r: User)
        ensures
            r == *self,
    {
        User {
            userid: self.userid.clone(),
            name: self.name.clone(),
            email: self.email.clone(),
            password_hash: self.password_hash.clone(),
            balance: self.balance,
            quantity: self.quantity,
        }
    }
}

/// The abstract state of the user registry.
pub struct UsersView {
    /// Every user by identifier.
    pub table: Map<Seq<char>, User>,
    /// The identifiers in the order the users registered.
    pub order: Seq<Seq<char>>,
}

/// Some registered user has this email.
pub open spec fn email_taken(v: UsersView, email: Seq<char>) -> bool {
    exists|k: Seq<char>| #[trigger] v.table.contains_key(k) && v.table[k].email@ == email
}

/// Users are filed under their identifiers, listed once each, and no two
/// share an email.
pub open spec fn users_wf(v: UsersView) -> bool {
    &&& v.order.no_duplicates()
    &&& forall|k: Seq<char>| #[trigger] v.table.contains_key(k) <==> v.order.contains(k)
    &&& forall|k: Seq<char>| #[trigger] v.table.contains_key(k) ==> v.table[k].userid@ == k
    &&& forall|a: Seq<char>, b: Seq<char>|
        #[trigger] v.table.contains_key(a) && #[trigger] v.table.contains_key(b) && a != b ==> v.table[a].email@
            != v.table[b].email@
}

/// The registry after `u` registers.
pub open spec fn with_user(v: UsersView, u: User) -> UsersView {
    let k = u.userid@;
    UsersView {
        table: v.table.insert(k, u),
        order: if v.table.contains_key(k) {
            v.order
        } else {
            v.order.push(k)
        },
    }
}

/// What registration promises: the new user can be read back by its
/// identifier, and it is the one user with its email, so a lookup by that
/// email finds it and a second registration with it is refused.
pub proof fn lemma_registration_read_back(v: UsersView, u: User)
    requires
        users_wf(v),
        !email_taken(v, u.email@),
    ensures
        ({
            let w = with_user(v, u);
            &&& w.table.contains_key(u.userid@)
            &&& w.table[u.userid@] == u
            &&& email_taken(w, u.email@)
            &&& forall|k: Seq<char>| #[trigger] w.table.contains_key(k) && w.table[k].email@ == u.email@ ==> k == u.userid@
        }),
{
    let w = with_user(v, u);
    assert(w.table.contains_key(u.userid@));
    assert forall|k: Seq<char>| #[trigger] w.table.contains_key(k) && w.table[k].email@ == u.email@ implies k == u.userid@ by {
        if k != u.userid@ {
            assert(v.table.contains_key(k));
        }
    }
}

/// The registry of users.
pub struct Users {
    users: StringHashMap<User>,
    ids: Vec<String>,
}

impl View for Users {
    type V = UsersView;

    closed spec fn view(&self) -> UsersView {
        UsersView { table: self.users@, order: views(self.ids@) }
    }
}

impl Users {
    #[verifier::type_invariant]
    spec fn inv(self) -> bool {
        users_wf(self@)
    }

    /// An empty registry.
    pub fn new() -> (r: Users)
        ensures
            users_wf(r@),
            r@.table == Map::<Seq<char>, User>::empty(),
            r@.order == Seq::<Seq<char>>::empty(),
    {
        let r = Users { users: StringHashMap::new(), ids: Vec::new() };
        assert(r@.order =~= Seq::<Seq<char>>::empty());
        r
    }

    /// The user with this identifier.
    pub fn getuser(&self, userid: &str) -> (r: Option<&User>)
        ensures
            match r {
                Some(u) => self@.table.contains_key(userid@) && *u == self@.table[userid@],
                None => !self@.table.contains_key(userid@),
            },
    {
        self.users.get(userid)
    }

    /// The user with this email, if one is registered.
    pub fn find_by_email(&self, email: &str) -> (r: Option<&User>)
        ensures
            users_wf(self@),
            match r {
                Some(u) => self@.table.contains_key(u.userid@) && *u == self@.table[u.userid@] && u.email@
                    == email@,
                None => !email_taken(self@, email@),
            },
    {
        proof {
            use_type_invariant(self);
        }
        let mut i: usize = 0;
        while i < self.ids.len()
            invariant
                users_wf(self@),
                i <= self.ids@.len(),
                forall|j: int| 0 <= j < i ==> #[trigger] self@.table[self@.order[j]].email@ != email@,
            decreases self.ids@.len() - i,
        {
            assert(self@.order[i as int] == self.ids@[i as int]@);
            assert(self@.order.contains(self@.order[i as int]));
            match self.users.get(self.ids[i].as_str()) {
                Some(u) => {
                    if text_eq(u.email.as_str(), email) {
                        return Some(u);
                    }
                },
                None => {},
            }
            i = i + 1;
        }
        assert forall|k: Seq<char>| #[trigger] self@.table.contains_key(k) implies self@.table[k].email@
            != email@ by {
            assert(self@.order.contains(k));
            let j = choose|j: int| 0 <= j < self@.order.len() && self@.order[j] == k;
            assert(self@.table[self@.order[j]].email@ != email@);
        }
        None
    }

    /// Registers a user with the starting balance, unless the email is
    /// already registered ("email already registered"). Returns a copy of
    /// the new user.
    pub fn add_new_user(&mut self, name: String, email: String, password_hash: String) -> (r: Result<
        User,
        String,
    >)
        ensures
            users_wf(final(self)@),
            match r {
                Ok(u) => {
                    &&& !email_taken(old(self)@, email@)
                    &&& u.name == name
                    &&& u.email == email
                    &&& u.password_hash == password_hash
                    &&& u.balance == starting_balance()
                    &&& u.quantity == starting_quantity()
                    &&& u.userid@.len() == 21
                    &&& final(self)@ == with_user(old(self)@, u)
                },
                Err(e) => {
                    &&& email_taken(old(self)@, email@)
                    &&& e@ == "email already registered"@
                    &&& final(self)@ == old(self)@
                },
            },
    {
        proof {
            use_type_invariant(&*self);
        }
        if self.find_by_email(email.as_str()).is_some() {
            return Err("email already registered".to_owned());
        }
        let user = User::new(name, email, password_hash);
        let copy = user.duplicate();
        let mut this = Users::new();
        std::mem::swap(self, &mut this);
        let Users { mut users, mut ids } = this;
        let ghost v0 = old(self)@;
        let ghost ids0 = ids@;
        let known = users.contains_key(user.userid.as_str());
        if !known {
            ids.push(user.userid.clone());
            assert(views(ids@) =~= views(ids0).push(user.userid@));
        }
        users.insert(user.userid.clone(), user);
        proof {
            let nv = UsersView { table: users@, order: views(ids@) };
            let k = copy.userid@;
            assert(nv == with_user(v0, copy));
            if !known {
                assert(!v0.order.contains(k));
                assert(nv.order.no_duplicates()) by {
                    assert forall|i: int, j: int| 0 <= i < j < nv.order.len() implies nv.order[i] != nv.order[j] by {
                        assert(nv.order[i] == v0.order[i]);
                        if j < nv.order.len() - 1 {
                            assert(nv.order[j] == v0.order[j]);
                        }
                    }
                }
                assert forall|k2: Seq<char>| #[trigger] nv.table.contains_key(k2) <==> nv.order.contains(k2) by {
                    if k2 == k {
                        assert(nv.order[nv.order.len() - 1] == k);
                    } else {
                        if v0.order.contains(k2) {
                            let i = choose|i: int| 0 <= i < v0.order.len() && v0.order[i] == k2;
                            assert(nv.order[i] == k2);
                        }
                        if nv.order.contains(k2) {
                            let i = choose|i: int| 0 <= i < nv.order.len() && nv.order[i] == k2;
                            assert(v0.order[i] == k2);
                        }
                    }
                }
            }
            assert forall|a: Seq<char>, b: Seq<char>|
                #[trigger] nv.table.contains_key(a) && #[trigger] nv.table.contains_key(b) && a != b implies nv.table[a].email@
                    != nv.table[b].email@ by {
                if a == k {
                    assert(v0.table.contains_key(b));
                } else if b == k {
                    assert(v0.table.contains_key(a));
                }
            }
        }
        *self = Users { users, ids };
        Ok(copy)
    }

    /// Sets the balance of a user; `false`, with nothing changed, when there
    /// is no such user.
    pub fn set_balance(&mut self, userid: &str, balance: Dec) -> (r: bool)
        ensures
            users_wf(final(self)@),
            r == old(self)@.table.contains_key(userid@),
            r ==> final(self)@ == (UsersView {
                table: old(self)@.table.insert(userid@, User { balance, ..old(self)@.table[userid@] }),
                ..old(self)@
            }),
            !r ==> final(self)@ == old(self)@,
    {
        proof {
            use_type_invariant(&*self);
        }
        let updated = match self.users.get(userid) {
            Some(u) => {
                let mut c = u.duplicate();
                c.balance = balance;
                c
            },
            None => return false,
        };
        let mut this = Users::new();
        std::mem::swap(self, &mut this);
        let Users { mut users, ids } = this;
        let ghost v0 = old(self)@;
        users.insert(userid.to_owned(), updated);
        proof {
            let nv = UsersView { table: users@, order: views(ids@) };
            assert(nv.table.dom() =~= v0.table.dom());
            assert forall|a: Seq<char>, b: Seq<char>|
                #[trigger] nv.table.contains_key(a) && #[trigger] nv.table.contains_key(b) && a != b implies nv.table[a].email@
                    != nv.table[b].email@ by {
                assert(v0.table.contains_key(a));
                assert(v0.table.contains_key(b));
            }
        }
        *self = Users { users, ids };
        true
    }
}

} // verus!
