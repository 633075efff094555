use vstd::prelude::*;

verus! {

/// How a surface's own shading is mixed with the light that arrives along
/// its reflected and refracted rays.
#[derive(Clone, Copy, Debug, PartialEq, Eq, Structural)]
pub enum Blend {
    /// Opaque and not reflective: the direct shading alone.
    Direct,
    /// Direct and reflected light, weighted by reflectivity.
    Reflective,
    /// Direct, reflected (by the Fresnel weight) and refracted light.
    Transparent,
    /// Transparent with a reflective coating: a three-way mix.
    ReflectiveTransparent,
}

/// What a ray does at one level of the recursion.
#[derive(Clone, Copy, Debug, PartialEq, Eq, Structural)]
pub enum TracePlan {
    /// The depth budget is spent: the ray shows the sky.
    Sky,
    /// Shade the surface hit, spawn the continuation rays that are marked,
    /// and mix them as `blend` says.
    Surface { reflect: bool, refract: bool, blend: Blend },
}

pub open spec fn blend_of(reflective: bool, transparent: bool) -> Blend {
    if transparent && reflective {
        Blend::ReflectiveTransparent
    } else if transparent {
        Blend::Transparent
    } else if reflective {
        Blend::Reflective
    } else {
        Blend::Direct
    }
}

/// The plan for a ray at recursion level `depth` that hit a surface whose
/// reflectivity (`reflective`) and transparency (`transparent`) pass their
/// thresholds. Past `max_depth` the ray shows the sky. A reflective or
/// transparent surface spawns a reflected ray (for a transparent one it
/// carries the Fresnel share, all of it on total internal reflection), a
/// transparent one also a refracted ray; continuation rays are spawned only
/// while a level remains, so every spawned ray's level
/// `depth + 1` is at most `max_depth` and the recursion ends.
pub fn trace_plan(depth: u32, max_depth: u32, reflective: bool, transparent: bool) -> (r: TracePlan)
    ensures
        r == if depth > max_depth {
            TracePlan::Sky
        } else {
            TracePlan::Surface {
                reflect: (reflective || transparent) && depth < max_depth,
                refract: transparent && depth < max_depth,
                blend: blend_of(reflective, transparent),
            }
        },
{
    if depth > max_depth {
        return TracePlan::Sky;
    }
    let budget = depth < max_depth;
    let blend = if transparent && reflective {
        Blend::ReflectiveTransparent
    } else if transparent {
        Blend::Transparent
    } else if reflective {
        Blend::Reflective
    } else {
        Blend::Direct
    };
    TracePlan::Surface { reflect: (reflective || transparent) && budget, refract: transparent && budget, blend }
}

} // verus!
