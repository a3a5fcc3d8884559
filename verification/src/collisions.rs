//! Which asteroids a collision destroys.

use vstd::prelude::*;

verus! {

/// An asteroid as far as collisions go: its identity and the identities of
/// everything it touches.
#[derive(Debug, Clone, PartialEq, Eq)]
pub struct Contact {
    pub entity: u64,
    pub colliding: Vec<u64>,
}

/// Whether `entity` is one of the asteroids.
pub open spec fn is_asteroid(asteroids: Seq<Contact>, entity: u64) -> bool {
    exists|i: int| 0 <= i < asteroids.len() && (#[trigger] asteroids[i]).entity == entity
}

/// Whether an asteroid touches something that is no asteroid.
pub open spec fn is_hit(asteroids: Seq<Contact>, contact: Contact) -> bool {
    exists|k: int|
        0 <= k < contact.colliding@.len() && !is_asteroid(
            asteroids,
            #[trigger] contact.colliding@[k],
        )
}

/// The asteroids that are hit, in their order.
pub open spec fn hit_entities(asteroids: Seq<Contact>, n: int) -> Seq<u64>
    decreases n,
{
    if n <= 0 {
        Seq::empty()
    } else if is_hit(asteroids, asteroids[n - 1]) {
        hit_entities(asteroids, n - 1).push(asteroids[n - 1].entity)
    } else {
        hit_entities(asteroids, n - 1)
    }
}

fn among(asteroids: &Vec<Contact>, entity: u64) -> (r: bool)
    ensures
        r == is_asteroid(asteroids@, entity),
{
    let mut i: usize = 0;
    while i < asteroids.len()
        invariant
            i <= asteroids@.len(),
            forall|j: int| 0 <= j < i ==> (#[trigger] asteroids@[j]).entity != entity,
        decreases asteroids.len() - i,
    {
        if asteroids[i].entity == entity {
            return true;
        }
        i += 1;
    }
    false
}

fn touches_other(asteroids: &Vec<Contact>, contact: &Contact) -> (r: bool)
    ensures
        r == is_hit(asteroids@, *contact),
{
    let mut k: usize = 0;
    while k < contact.colliding.len()
        invariant
            k <= contact.colliding@.len(),
            forall|j: int|
                0 <= j < k ==> is_asteroid(asteroids@, #[trigger] contact.colliding@[j]),
        decreases contact.colliding.len() - k,
    {
        if !among(asteroids, contact.colliding[k]) {
            return true;
        }
        k += 1;
    }
    false
}

/// The asteroids to remove: those that touch something that is not an
/// asteroid. Asteroids that only touch each other stay.
pub fn asteroids_to_despawn(asteroids: &Vec<Contact>) -> (gone: Vec<u64>)
    ensures
        gone@ == hit_entities(asteroids@, asteroids@.len() as int),
{
    let mut gone: Vec<u64> = Vec::new();
    let mut i: usize = 0;
    while i < asteroids.len()
        invariant
            i <= asteroids@.len(),
            gone@ == hit_entities(asteroids@, i as int),
        decreases asteroids.len() - i,
    {
        if touches_other(asteroids, &asteroids[i]) {
            gone.push(asteroids[i].entity);
        }
        i += 1;
    }
    gone
}

} // verus!
