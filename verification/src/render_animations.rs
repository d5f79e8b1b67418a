//! Renders every animation of a sheet into its block.

use vstd::prelude::*;
use crate::error::SheetError;
use crate::raster::Image;
use crate::render_animation::{block_fits, direction_sources, is_block_of, Render};
use crate::sorted_map::SortedMap;
use crate::source_imgs::ImgToRender;

verus! {

/// `renders` are what rendering makes of the animations `entries`, in order:
/// each animation with its block.
pub open spec fn are_rendered(renders: Seq<Render>, entries: Seq<(String, Vec<(ImgToRender, Image)>)>) -> bool {
    &&& renders.len() == entries.len()
    &&& forall|i: int|
        0 <= i < renders.len() ==> {
            let render = #[trigger] renders[i];
            &&& render.1.wf()
            &&& is_block_of(render.1@, render.0, entries[i].0@, entries[i].1@)
        }
}

/// Renders the animations in the given order, taking the frames out of
/// `groups`.
fn render_groups(groups: &mut [(String, Vec<(ImgToRender, Image)>)]) -> (r: Result<Vec<Render>, SheetError>)
    requires
        forall|i: int, j: int|
            0 <= i < old(groups)@.len() && 0 <= j < old(groups)@[i].1.len() ==> (#[trigger] old(
                groups,
            )@[i].1[j]).1.wf(),
    ensures
        r is Ok <==> forall|i: int|
            0 <= i < old(groups)@.len() ==> block_fits(direction_sources((#[trigger] old(groups)@[i]).1@)),
        r matches Ok(renders) ==> are_rendered(renders@, old(groups)@),
        r matches Err(e) ==> e == SheetError::TooLarge,
{
    let mut rendered_animations: Vec<Render> = Vec::new();
    let mut i: usize = 0;
    while i < groups.len()
        invariant
            i <= groups@.len(),
            groups@.len() == old(groups)@.len(),
            forall|t: int| i <= t < groups@.len() ==> #[trigger] groups@[t] == old(groups)@[t],
            forall|t: int, j: int|
                0 <= t < old(groups)@.len() && 0 <= j < old(groups)@[t].1.len() ==> (#[trigger] old(
                    groups,
                )@[t].1[j]).1.wf(),
            are_rendered(rendered_animations@, old(groups)@.take(i as int)),
            forall|t: int| 0 <= t < i ==> block_fits(direction_sources((#[trigger] old(groups)@[t]).1@)),
        decreases groups@.len() - i,
    {
        let animation = groups[i].0.clone();
        let mut imgs: Vec<(ImgToRender, Image)> = Vec::new();
        core::mem::swap(&mut imgs, &mut groups[i].1);
        let rendered = match crate::render_animation::execute(animation, imgs) {
            Ok(rendered) => rendered,
            Err(e) => {
                return Err(e);
            },
        };
        rendered_animations.push(rendered);
        proof {
            assert(old(groups)@.take(i + 1)[i as int] == old(groups)@[i as int]);
            assert forall|t: int| 0 <= t < i + 1 implies {
                let render = #[trigger] rendered_animations@[t];
                &&& render.1.wf()
                &&& is_block_of(render.1@, render.0, old(groups)@.take(i + 1)[t].0@, old(groups)@.take(i + 1)[t].1@)
            } by {
                if t < i {
                    assert(old(groups)@.take(i as int)[t] == old(groups)@.take(i + 1)[t]);
                }
            }
        }
        i += 1;
    }
    proof {
        assert(old(groups)@.take(i as int) =~= old(groups)@);
    }
    Ok(rendered_animations)
}

/// Renders all animations: each animation of the map becomes one block, in
/// the order of the map. Fails when a strip or a block cannot be held.
pub fn execute(animations: SortedMap<String, Vec<(ImgToRender, Image)>>) -> (r: Result<Vec<Render>, SheetError>)
    requires
        forall|i: int, j: int|
            0 <= i < animations.entries().len() && 0 <= j < animations.entries()[i].1.len() ==> (
            #[trigger] animations.entries()[i].1[j]).1.wf(),
    ensures
        r is Ok <==> forall|i: int|
            0 <= i < animations.entries().len() ==> block_fits(
                direction_sources((#[trigger] animations.entries()[i]).1@),
            ),
        r matches Ok(renders) ==> are_rendered(renders@, animations.entries()),
        r matches Err(e) ==> e == SheetError::TooLarge,
{
    let mut animations = animations;
    render_groups(animations.iter_mut())
}

} // verus!
