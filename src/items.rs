use vstd::prelude::*;

use crate::vector_types::Vec2;

verus! {

/// How an item is drawn and used.
#[derive(Clone, Copy, Debug, PartialEq, Eq)]
pub enum ItemType {
    Air,
    BlockCube,
    BlockCross,
    UserItem,
}

/// The item type that a type name stands for; unknown names are user items.
pub open spec fn item_type_named(name: Seq<char>) -> ItemType {
    if name == "Air"@ {
        ItemType::Air
    } else if name == "BlockCube"@ {
        ItemType::BlockCube
    } else if name == "BlockCross"@ {
        ItemType::BlockCross
    } else {
        ItemType::UserItem
    }
}

impl ItemType {
    /// The item type named `name` (`Air`, `BlockCube`, `BlockCross`);
    /// any other name gives `UserItem`.
    pub fn from_name(name: &String) -> (r: ItemType)
        ensures
            r == item_type_named(name@),
    {
        proof {
            reveal_strlit("Air");
            reveal_strlit("BlockCube");
            reveal_strlit("BlockCross");
        }
        if *name == "Air".to_owned() {
            ItemType::Air
        } else if *name == "BlockCube".to_owned() {
            ItemType::BlockCube
        } else if *name == "BlockCross".to_owned() {
            ItemType::BlockCross
        } else {
            ItemType::UserItem
        }
    }
}

/// Everything the registry knows about one item.
pub struct ItemData {
    pub item_type: ItemType,
    pub is_transparent: bool,
    pub show_in_inventory: bool,
    pub name: String,
    pub top_tex_coords: Vec2<u16>,
    pub side_tex_coords: Vec2<u16>,
    pub bottom_tex_coords: Vec2<u16>,
}

/// The item registry: an item's id is its index.
pub struct ItemManager {
    items: Vec<ItemData>,
}

/// `id` names an item of a registry holding `items`.
pub open spec fn is_registered(items: Seq<ItemData>, id: int) -> bool {
    0 <= id < items.len()
}

impl View for ItemManager {
    type V = Seq<ItemData>;

    closed spec fn view(&self) -> Seq<ItemData> {
        self.items@
    }
}

impl ItemManager {
    /// Creates an empty registry.
    pub fn new() -> (r: ItemManager)
        ensures
            r@ == Seq::<ItemData>::empty(),
    {
        ItemManager { items: Vec::new() }
    }

    /// Appends `item`; its id is the number of items registered before it.
    pub fn put_new_item(&mut self, item: ItemData)
        ensures
            final(self)@ == old(self)@.push(item),
    {
        self.items.push(item);
    }

    /// The number of registered items.
    pub fn len(&self) -> (r: usize)
        ensures
            r == self@.len(),
    {
        self.items.len()
    }

    /// The item with id `id`, if there is one.
    pub fn get_item_by_id(&self, id: i32) -> (r: Option<&ItemData>)
        ensures
            match r {
                Some(d) => is_registered(self@, id as int) && *d == self@[id as int],
                None => !is_registered(self@, id as int),
            },
    {
        if 0 <= id && (id as usize) < self.items.len() {
            Some(&self.items[id as usize])
        } else {
            None
        }
    }

    /// The smallest id whose item is called `name`. Only ids that fit an
    /// `i32` are searched.
    pub fn get_id_by_name(&self, name: String) -> (r: Option<i32>)
        ensures
            match r {
                Some(id) => {
                    &&& is_registered(self@, id as int)
                    &&& self@[id as int].name@ == name@
                    &&& forall|j: int| 0 <= j < id ==> (#[trigger] self@[j]).name@ != name@
                },
                None => forall|j: int|
                    0 <= j < self@.len() && j <= i32::MAX ==> (#[trigger] self@[j]).name@ != name@,
            },
    {
        let mut i: usize = 0;
        while i < self.items.len() && i <= i32::MAX as usize
            invariant
                i <= self@.len(),
                i <= i32::MAX as usize + 1,
                forall|j: int| 0 <= j < i ==> (#[trigger] self@[j]).name@ != name@,
            decreases self@.len() - i,
        {
            if self.items[i].name == name {
                return Some(i as i32);
            }
            i += 1;
        }
        None
    }
}

} // verus!
