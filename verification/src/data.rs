//! The whole dataset: what is kept for each guild, by the guild's identity.

use vstd::prelude::*;
use std::collections::BTreeMap;
use vstd::std_specs::iter::IteratorSpec;

verus! {

/// Data that may be held in the shape of an earlier version.
pub trait Migrate: Sized {
    /// The same data in the shape of the latest version.
    spec fn migrated(&self) -> Self;

    /// What the data must meet to be migrated.
    spec fn can_migrate(&self) -> bool;

    /// Brings the data into the shape of the latest version.
    fn migrate(&mut self)
        requires
            old(self).can_migrate(),
        ensures
            *final(self) == old(self).migrated(),
    ;
}

/// To the value that `map` holds for `key`.
///
/// Trusted: calls `BTreeMap::get_mut`, which returns a mutable reference to
/// the value for the key; the map afterwards differs from the map before
/// only in what was written through the reference.
#[verifier::external_body]
fn value_mut<V>(map: &mut BTreeMap<u64, V>, key: u64) -> (value: &mut V)
    requires
        old(map)@.contains_key(key),
    ensures
        *value == old(map)@[key],
        final(map)@ == old(map)@.insert(key, *final(value)),
{
    map.get_mut(&key).unwrap()
}

/// The data of every guild, by the guild's identity.
#[derive(Debug)]
pub struct GlobalData<GuildData> {
    guilds: BTreeMap<u64, GuildData>,
}

impl<GuildData> GlobalData<GuildData> {
    /// The data of each guild.
    pub closed spec fn guilds(&self) -> Map<u64, GuildData> {
        self.guilds@
    }

    /// A dataset with no guilds.
    pub fn new() -> (d: Self)
        ensures
            d.guilds() == Map::<u64, GuildData>::empty(),
    {
        GlobalData { guilds: BTreeMap::new() }
    }

    /// The data of guild `id`, if there is any.
    pub fn guild(&self, id: u64) -> (g: Option<&GuildData>)
        ensures
            g == (if self.guilds().contains_key(id) {
                Some(&self.guilds()[id])
            } else {
                None
            }),
    {
        self.guilds.get(&id)
    }

    /// To the data of guild `guild_id`, which is made first where the
    /// dataset has none: what is written to it is written to the dataset.
    pub fn guild_mut(&mut self, guild_id: u64) -> (data: &mut GuildData) where GuildData: Default
        ensures
            old(self).guilds().contains_key(guild_id) ==> *data == old(self).guilds()[guild_id],
            !old(self).guilds().contains_key(guild_id) ==> call_ensures(
                GuildData::default,
                (),
                *data,
            ),
            final(self).guilds() == old(self).guilds().insert(guild_id, *final(data)),
    {
        if !self.guilds.contains_key(&guild_id) {
            self.guilds.insert(guild_id, GuildData::default());
        }
        let data = value_mut(&mut self.guilds, guild_id);
        assert(old(self).guilds().insert(guild_id, *data).insert(guild_id, *final(data)) =~= old(
            self,
        ).guilds().insert(guild_id, *final(data)));
        data
    }

    /// Makes `data` the data of guild `id`.
    pub fn put_guild(&mut self, id: u64, data: GuildData)
        ensures
            final(self).guilds() == old(self).guilds().insert(id, data),
    {
        self.guilds.insert(id, data);
    }

    /// The identities of the guilds, each once.
    pub fn guild_ids(&self) -> (ids: Vec<u64>)
        ensures
            forall|id: u64| ids@.contains(id) <==> #[trigger] self.guilds().contains_key(id),
            ids@.no_duplicates(),
    {
        let mut ids: Vec<u64> = Vec::new();
        let ghost items = self.guilds.iter().remaining();
        let ghost mut idx: int = 0;
        for kv in it: self.guilds.iter()
            invariant
                idx == it.index(),
                items == it.seq(),
                items == self.guilds.iter().remaining(),
                items.no_duplicates(),
                ids.len() == idx,
                forall|j: int| 0 <= j < idx ==> #[trigger] ids@[j] == *items[j].0,
        {
            proof {
                assert(items[idx] == kv);
                idx = idx + 1;
            }
            ids.push(*kv.0);
        }
        proof {
            assert forall|id: u64| ids@.contains(id) <==> #[trigger] self.guilds().contains_key(
                id,
            ) by {
                if ids@.contains(id) {
                    let j = choose|j: int| 0 <= j < ids@.len() && ids@[j] == id;
                    assert(self.guilds@.contains_key(*items[j].0));
                }
                if self.guilds@.contains_key(id) {
                    assert(items.contains((&id, &self.guilds@[id])));
                    let j = choose|j: int|
                        0 <= j < items.len() && items[j] == (&id, &self.guilds@[id]);
                    assert(ids@[j] == id);
                }
            }
            assert forall|a: int, b: int| 0 <= a < ids@.len() && 0 <= b < ids@.len() && a
                != b implies ids@[a] != ids@[b] by {
                if ids@[a] == ids@[b] {
                    assert(self.guilds@[*items[a].0] == *items[a].1);
                    assert(self.guilds@[*items[b].0] == *items[b].1);
                    assert(items[a] == items[b]);
                }
            }
        }
        ids
    }
}

impl<GuildData: Migrate> GlobalData<GuildData> {
    /// Brings the data of every guild into the shape of the latest version.
    pub fn migrate(&mut self)
        requires
            forall|id: u64| #[trigger]
                old(self).guilds().contains_key(id) ==> old(self).guilds()[id].can_migrate(),
        ensures
            final(self).guilds().dom() == old(self).guilds().dom(),
            forall|id: u64| #[trigger]
                final(self).guilds().contains_key(id) ==> final(self).guilds()[id] == old(
                    self,
                ).guilds()[id].migrated(),
    {
        let ids = self.guild_ids();
        let mut i: usize = 0;
        while i < ids.len()
            invariant
                i <= ids.len(),
                ids@.no_duplicates(),
                forall|id: u64| ids@.contains(id) <==> #[trigger] old(self).guilds().contains_key(id),
                self.guilds().dom() == old(self).guilds().dom(),
                forall|id: u64| #[trigger]
                    old(self).guilds().contains_key(id) ==> old(self).guilds()[id].can_migrate(),
                forall|j: int|
                    0 <= j < i ==> self.guilds()[#[trigger] ids@[j]] == old(
                        self,
                    ).guilds()[ids@[j]].migrated(),
                forall|j: int|
                    i <= j < ids.len() ==> self.guilds()[#[trigger] ids@[j]] == old(
                        self,
                    ).guilds()[ids@[j]],
            decreases ids.len() - i,
        {
            let id = ids[i];
            proof {
                assert(ids@.contains(ids@[i as int]));
            }
            let ghost before = self.guilds();
            match self.guilds.remove(&id) {
                Some(data) => {
                    let mut data = data;
                    data.migrate();
                    self.guilds.insert(id, data);
                    proof {
                        assert(self.guilds().dom() =~= before.dom());
                        assert forall|j: int| 0 <= j < ids.len() && j != i implies self.guilds()[ids@[j]]
                            == before[#[trigger] ids@[j]] by {}
                    }
                },
                None => {},
            }
            i += 1;
        }
        proof {
            assert forall|id: u64| #[trigger] self.guilds().contains_key(id) implies self.guilds()[id]
                == old(self).guilds()[id].migrated() by {
                assert(ids@.contains(id));
                let j = choose|j: int| 0 <= j < ids@.len() && ids@[j] == id;
                assert(self.guilds()[ids@[j]] == old(self).guilds()[ids@[j]].migrated());
            }
        }
    }
}

} // verus!
