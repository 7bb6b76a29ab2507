//! What the plugin attribute makes of an impl block.
//!
//! A plugin declares its dependencies in `inject`, then fetches the same
//! services again inside `apply`. The attribute collapses that: service
//! parameters written after `ctx` are extracted from the context, and
//! `inject` is derived from them. An `Arc<T>` parameter is a hard dependency,
//! an `Option<Arc<T>>` parameter a soft one. A hand-written `inject` in the
//! same block wins over the derived one.
//!
//! The block is given by its shape; numbers stand for the pieces of source
//! that are passed through.

use crate::text::same_text;
use crate::tree::lemma_push_contains;
use vstd::prelude::*;

verus! {

/// The shape of a type.
#[derive(Debug)]
pub enum TypeShape {
    /// A path: its source, whether it starts with a `<T as Trait>`, and its
    /// segments.
    Path(usize, bool, Vec<Segment>),
    /// Any other type.
    Other(usize),
}

/// A segment of a path.
#[derive(Debug)]
pub struct Segment {
    pub name: String,
    pub arguments: Arguments,
}

/// The arguments of a path segment.
#[derive(Debug)]
pub enum Arguments {
    /// Those in angle brackets.
    Angle(Vec<Argument>),
    /// None, or those in round brackets.
    Other,
}

/// One argument in angle brackets.
#[derive(Debug)]
pub enum Argument {
    /// A type.
    Type(TypeShape),
    /// A lifetime, a constant or a constraint.
    Other,
}

/// A parameter.
#[derive(Debug)]
pub enum Input {
    /// A `self`, with whether it is taken by reference and whether it is
    /// mutable.
    Receiver(bool, bool),
    /// A pattern with a type; the pattern by name where it is a plain
    /// identifier.
    Typed(Option<String>, TypeShape),
}

/// An item of the block.
#[derive(Debug)]
pub struct Item {
    /// The name of a method, and nothing for any other item.
    pub method: Option<String>,
    /// The method's parameters.
    pub inputs: Vec<Input>,
}

/// An impl block.
#[derive(Debug)]
pub struct ImplBlock {
    /// The names along the trait's path, where a trait is implemented.
    pub trait_path: Option<Vec<String>>,
    pub items: Vec<Item>,
}

/// One service parameter of the user's `apply`.
#[derive(Debug)]
pub struct ServiceParam {
    /// The parameter's name.
    pub pat: String,
    /// The source of its type.
    pub ty: usize,
    /// The source of the service type.
    pub dependency: usize,
    /// Whether it is a soft dependency.
    pub soft: bool,
}

/// What a service parameter is.
#[verifier::ext_equal]
pub struct ParamView {
    pub pat: Seq<char>,
    pub ty: usize,
    pub dependency: usize,
    pub soft: bool,
}

impl View for ServiceParam {
    type V = ParamView;

    open spec fn view(&self) -> ParamView {
        ParamView {
            pat: self.pat@,
            ty: self.ty,
            dependency: self.dependency,
            soft: self.soft,
        }
    }
}

/// What each of the parameters is.
pub open spec fn param_views(params: Seq<ServiceParam>) -> Seq<ParamView> {
    params.map_values(|p: ServiceParam| p@)
}

/// What is wrong with a block. Numbers name the parameter or the item that it
/// is about.
#[derive(Debug, Clone, Copy, PartialEq, Eq, Structural)]
pub enum Complaint {
    /// The attribute has arguments.
    TakesNoArguments,
    /// The block is no `impl Plugin for Type`.
    NotAPluginImpl,
    /// There is a second `apply`.
    DuplicateApply(usize),
    /// There is no `apply`.
    NoApply,
    /// The receiver is not `&self`.
    NotByReference,
    /// The first parameter is no receiver.
    NoReceiverFirst,
    /// There are no parameters.
    NoReceiver,
    /// The second parameter is not `ctx: Ctx`.
    NotCtx,
    /// There is no second parameter.
    NoCtx,
    /// There is a second receiver.
    SecondReceiver(usize),
    /// The parameter is no plain identifier.
    NotPlain(usize),
    /// The parameter is neither `Arc<T>` nor `Option<Arc<T>>`.
    NotAService(usize),
    /// `Arc` without a type argument.
    BareArc(usize),
    /// `Option` without a type argument.
    BareOption(usize),
    /// `Option` of something that is no `Arc<T>`.
    NotSoft(usize),
}

impl Complaint {
    /// What the complaint says.
    pub open spec fn spec_text(self) -> Seq<char> {
        match self {
            Complaint::TakesNoArguments => "#[plugin] takes no arguments"@,
            Complaint::NotAPluginImpl =>
                "#[plugin] must annotate an `impl Plugin for Type` block"@,
            Complaint::DuplicateApply(_) => "duplicate `apply` in a #[plugin] impl"@,
            Complaint::NoApply => "#[plugin] requires an `apply` method in the impl"@,
            Complaint::NotByReference => "#[plugin] `apply` must take `&self`"@,
            Complaint::NoReceiverFirst => "#[plugin] `apply` must start with `&self`"@,
            Complaint::NoReceiver => "#[plugin] `apply` must take `&self`"@,
            Complaint::NotCtx => "#[plugin] `apply` must take `ctx: Ctx` after `&self`"@,
            Complaint::NoCtx => "#[plugin] `apply` must take `ctx: Ctx` after `&self`"@,
            Complaint::SecondReceiver(_) => "only one `self` receiver is allowed"@,
            Complaint::NotPlain(_) => "service parameters must be plain identifiers"@,
            Complaint::NotAService(_) =>
                "service parameters must be `Arc<T>` or `Option<Arc<T>>`"@,
            Complaint::BareArc(_) => "`Arc` service parameters take one type argument"@,
            Complaint::BareOption(_) => "`Option` service parameters take one type argument"@,
            Complaint::NotSoft(_) => "soft dependencies must be `Option<Arc<T>>`"@,
        }
    }

    /// What the complaint says.
    pub fn text(&self) -> (r: &'static str)
        ensures
            r@ == self.spec_text(),
    {
        match self {
            Complaint::TakesNoArguments => "#[plugin] takes no arguments",
            Complaint::NotAPluginImpl =>
                "#[plugin] must annotate an `impl Plugin for Type` block",
            Complaint::DuplicateApply(_) => "duplicate `apply` in a #[plugin] impl",
            Complaint::NoApply => "#[plugin] requires an `apply` method in the impl",
            Complaint::NotByReference => "#[plugin] `apply` must take `&self`",
            Complaint::NoReceiverFirst => "#[plugin] `apply` must start with `&self`",
            Complaint::NoReceiver => "#[plugin] `apply` must take `&self`",
            Complaint::NotCtx => "#[plugin] `apply` must take `ctx: Ctx` after `&self`",
            Complaint::NoCtx => "#[plugin] `apply` must take `ctx: Ctx` after `&self`",
            Complaint::SecondReceiver(_) => "only one `self` receiver is allowed",
            Complaint::NotPlain(_) => "service parameters must be plain identifiers",
            Complaint::NotAService(_) => "service parameters must be `Arc<T>` or `Option<Arc<T>>`",
            Complaint::BareArc(_) => "`Arc` service parameters take one type argument",
            Complaint::BareOption(_) => "`Option` service parameters take one type argument",
            Complaint::NotSoft(_) => "soft dependencies must be `Option<Arc<T>>`",
        }
    }
}

// ---- service types ----

/// The source of a type.
pub open spec fn source(ty: TypeShape) -> usize {
    match ty {
        TypeShape::Path(source, _, _) => source,
        TypeShape::Other(source) => source,
    }
}

/// The last segment of a path without a `<T as Trait>` in front.
pub open spec fn last_segment(ty: TypeShape) -> Option<Segment> {
    match ty {
        TypeShape::Path(_, false, segments) => if segments@.len() > 0 {
            Some(segments@.last())
        } else {
            None
        },
        _ => None,
    }
}

/// Whether the type is a path that ends in this name.
pub open spec fn ends_with(ty: TypeShape, name: Seq<char>) -> bool {
    match last_segment(ty) {
        Some(segment) => segment.name@ == name,
        None => false,
    }
}

/// The argument in angle brackets, where it is the only one and a type.
pub open spec fn only_type(arguments: Arguments) -> Option<TypeShape> {
    match arguments {
        Arguments::Angle(all) => if all@.len() == 1 {
            match all@[0] {
                Argument::Type(ty) => Some(ty),
                Argument::Other => None,
            }
        } else {
            None
        },
        Arguments::Other => None,
    }
}

/// The type argument of a path.
pub open spec fn argument(ty: TypeShape) -> Option<TypeShape> {
    match last_segment(ty) {
        Some(segment) => only_type(segment.arguments),
        None => None,
    }
}

/// What the type of parameter `at` says: the source of the service type and
/// whether the dependency is soft. `Arc<T>` is hard, `Option<Arc<T>>` soft;
/// anything else is refused.
pub open spec fn classified(ty: TypeShape, at: usize) -> Result<(usize, bool), Complaint> {
    if ends_with(ty, "Arc"@) {
        match argument(ty) {
            Some(service) => Ok((source(service), false)),
            None => Err(Complaint::BareArc(at)),
        }
    } else if ends_with(ty, "Option"@) {
        match argument(ty) {
            Some(inner) => if ends_with(inner, "Arc"@) {
                match argument(inner) {
                    Some(service) => Ok((source(service), true)),
                    None => Err(Complaint::BareArc(at)),
                }
            } else {
                Err(Complaint::NotSoft(at))
            },
            None => Err(Complaint::BareOption(at)),
        }
    } else {
        Err(Complaint::NotAService(at))
    }
}

/// The source of a type.
fn source_of(ty: &TypeShape) -> (r: usize)
    ensures
        r == source(*ty),
{
    match ty {
        TypeShape::Path(source, _, _) => *source,
        TypeShape::Other(source) => *source,
    }
}

/// The last segment of a path without a `<T as Trait>` in front.
fn unwrap_segment(ty: &TypeShape) -> (r: Option<&Segment>)
    ensures
        match r {
            Some(segment) => last_segment(*ty) == Some(*segment),
            None => last_segment(*ty) is None,
        },
{
    match ty {
        TypeShape::Path(_, qualified, segments) => {
            let n = segments.len();
            if !*qualified && n > 0 {
                Some(&segments[n - 1])
            } else {
                None
            }
        },
        TypeShape::Other(_) => None,
    }
}

/// Whether the type is a path that ends in this name.
fn type_ends_with(ty: &TypeShape, name: &str) -> (r: bool)
    ensures
        r == ends_with(*ty, name@),
{
    match unwrap_segment(ty) {
        Some(segment) => same_text(segment.name.as_str(), name),
        None => false,
    }
}

/// The argument in angle brackets, where it is the only one and a type.
fn single_type_argument(arguments: &Arguments) -> (r: Option<&TypeShape>)
    ensures
        match r {
            Some(ty) => only_type(*arguments) == Some(*ty),
            None => only_type(*arguments) is None,
        },
{
    match arguments {
        Arguments::Angle(all) => {
            if all.len() != 1 {
                return None;
            }
            match &all[0] {
                Argument::Type(ty) => Some(ty),
                Argument::Other => None,
            }
        },
        Arguments::Other => None,
    }
}

/// What the type of parameter `at` says: the source of the service type and
/// whether the dependency is soft.
pub fn classify_service(ty: &TypeShape, at: usize) -> (r: Result<(usize, bool), Complaint>)
    ensures
        r == classified(*ty, at),
{
    let segment = match unwrap_segment(ty) {
        Some(segment) => segment,
        None => {
            return Err(Complaint::NotAService(at));
        },
    };
    if same_text(segment.name.as_str(), "Arc") {
        return match single_type_argument(&segment.arguments) {
            Some(service) => Ok((source_of(service), false)),
            None => Err(Complaint::BareArc(at)),
        };
    }
    if same_text(segment.name.as_str(), "Option") {
        return match single_type_argument(&segment.arguments) {
            Some(inner) => {
                let inside = match unwrap_segment(inner) {
                    Some(inside) => inside,
                    None => {
                        return Err(Complaint::NotSoft(at));
                    },
                };
                if !same_text(inside.name.as_str(), "Arc") {
                    return Err(Complaint::NotSoft(at));
                }
                match single_type_argument(&inside.arguments) {
                    Some(service) => Ok((source_of(service), true)),
                    None => Err(Complaint::BareArc(at)),
                }
            },
            None => Err(Complaint::BareOption(at)),
        };
    }
    Err(Complaint::NotAService(at))
}

// ---- the parameters of `apply` ----

/// What is wrong with the receiver, if anything is.
pub open spec fn receiver_complaint(inputs: Seq<Input>) -> Option<Complaint> {
    if inputs.len() == 0 {
        Some(Complaint::NoReceiver)
    } else {
        match inputs[0] {
            Input::Receiver(reference, mutable) => if reference && !mutable {
                None
            } else {
                Some(Complaint::NotByReference)
            },
            Input::Typed(_, _) => Some(Complaint::NoReceiverFirst),
        }
    }
}

/// What is wrong with the context parameter, if anything is.
pub open spec fn ctx_complaint(inputs: Seq<Input>) -> Option<Complaint> {
    if inputs.len() < 2 {
        Some(Complaint::NoCtx)
    } else {
        match inputs[1] {
            Input::Typed(_, ty) => if ends_with(ty, "Ctx"@) {
                None
            } else {
                Some(Complaint::NotCtx)
            },
            Input::Receiver(_, _) => Some(Complaint::NotCtx),
        }
    }
}

/// The service parameter at a place, or what is wrong with it.
pub open spec fn service_at(input: Input, at: usize) -> Result<ParamView, Complaint> {
    match input {
        Input::Receiver(_, _) => Err(Complaint::SecondReceiver(at)),
        Input::Typed(None, _) => Err(Complaint::NotPlain(at)),
        Input::Typed(Some(pat), ty) => match classified(ty, at) {
            Ok((dependency, soft)) => Ok(
                ParamView { pat: pat@, ty: source(ty), dependency, soft },
            ),
            Err(complaint) => Err(complaint),
        },
    }
}

/// The service parameters among the first `n`, or what is wrong with the
/// first one with which something is.
pub open spec fn services_among(inputs: Seq<Input>, n: nat) -> Result<Seq<ParamView>, Complaint>
    decreases n,
{
    if n <= 2 {
        Ok(Seq::empty())
    } else {
        match services_among(inputs, (n - 1) as nat) {
            Ok(front) => match service_at(inputs[n - 1], (n - 1) as usize) {
                Ok(param) => Ok(front.push(param)),
                Err(complaint) => Err(complaint),
            },
            Err(complaint) => Err(complaint),
        }
    }
}

/// The service parameters, or what is wrong with the parameters: they are
/// `&self`, `ctx: Ctx` and services.
pub open spec fn services_of(inputs: Seq<Input>) -> Result<Seq<ParamView>, Complaint> {
    match receiver_complaint(inputs) {
        Some(complaint) => Err(complaint),
        None => match ctx_complaint(inputs) {
            Some(complaint) => Err(complaint),
            None => services_among(inputs, inputs.len()),
        },
    }
}

/// Whether a result is what it should be.
pub open spec fn services_result(
    r: Result<Vec<ServiceParam>, Complaint>,
    meant: Result<Seq<ParamView>, Complaint>,
) -> bool {
    match r {
        Ok(params) => meant == Ok::<Seq<ParamView>, Complaint>(param_views(params@)),
        Err(complaint) => meant == Err::<Seq<ParamView>, Complaint>(complaint),
    }
}

proof fn lemma_services_stop(inputs: Seq<Input>, n: nat, m: nat)
    requires
        n <= m,
        services_among(inputs, n) is Err,
    ensures
        services_among(inputs, m) == services_among(inputs, n),
    decreases m,
{
    if n < m {
        lemma_services_stop(inputs, n, (m - 1) as nat);
    }
}

/// Splits the parameters of the user's `apply` into the receiver, the `ctx`
/// and the service parameters; validates each service type's shape.
pub fn split_apply_inputs(inputs: &Vec<Input>) -> (r: Result<Vec<ServiceParam>, Complaint>)
    ensures
        services_result(r, services_of(inputs@)),
{
    if inputs.len() == 0 {
        return Err(Complaint::NoReceiver);
    }
    match &inputs[0] {
        Input::Receiver(reference, mutable) => {
            if !*reference || *mutable {
                return Err(Complaint::NotByReference);
            }
        },
        Input::Typed(_, _) => {
            return Err(Complaint::NoReceiverFirst);
        },
    }
    if inputs.len() < 2 {
        return Err(Complaint::NoCtx);
    }
    match &inputs[1] {
        Input::Typed(_, ty) => {
            if !type_ends_with(ty, "Ctx") {
                return Err(Complaint::NotCtx);
            }
        },
        Input::Receiver(_, _) => {
            return Err(Complaint::NotCtx);
        },
    }
    let mut services: Vec<ServiceParam> = Vec::new();
    let mut i: usize = 2;
    assert(param_views(services@) =~= Seq::<ParamView>::empty());
    while i < inputs.len()
        invariant
            2 <= i <= inputs@.len(),
            receiver_complaint(inputs@) is None,
            ctx_complaint(inputs@) is None,
            services_among(inputs@, i as nat) == Ok::<Seq<ParamView>, Complaint>(
                param_views(services@),
            ),
        decreases inputs@.len() - i,
    {
        let ghost done = services@;
        match &inputs[i] {
            Input::Receiver(_, _) => {
                proof {
                    lemma_services_stop(inputs@, (i + 1) as nat, inputs@.len());
                }
                return Err(Complaint::SecondReceiver(i));
            },
            Input::Typed(None, _) => {
                proof {
                    lemma_services_stop(inputs@, (i + 1) as nat, inputs@.len());
                }
                return Err(Complaint::NotPlain(i));
            },
            Input::Typed(Some(pat), ty) => match classify_service(ty, i) {
                Ok((dependency, soft)) => {
                    let param = ServiceParam {
                        pat: pat.clone(),
                        ty: source_of(ty),
                        dependency,
                        soft,
                    };
                    services.push(param);
                    assert(param_views(services@) =~= param_views(done).push(param@));
                },
                Err(complaint) => {
                    proof {
                        lemma_services_stop(inputs@, (i + 1) as nat, inputs@.len());
                    }
                    return Err(complaint);
                },
            },
        }
        i = i + 1;
    }
    Ok(services)
}

// ---- the block ----

/// What to write in place of a block.
#[derive(Debug)]
pub struct Expansion {
    /// The user's `apply`, by its place among the items.
    pub apply: usize,
    /// The items passed through, by their places.
    pub remaining: Vec<usize>,
    /// The services to extract, in the order of the parameters.
    pub services: Vec<ServiceParam>,
    /// Whether `inject` is to be written, with one dependency for each
    /// service.
    pub inject: bool,
}

/// Whether the item is a method of this name.
pub open spec fn is_method(item: Item, name: Seq<char>) -> bool {
    match item.method {
        Some(method) => method@ == name,
        None => false,
    }
}

/// The places of the methods of this name among the first `n` items, or of
/// everything else.
pub open spec fn places(items: Seq<Item>, name: Seq<char>, which: bool, n: nat) -> Seq<usize>
    decreases n,
{
    if n == 0 {
        Seq::empty()
    } else {
        let front = places(items, name, which, (n - 1) as nat);
        if is_method(items[n - 1], name) == which {
            front.push((n - 1) as usize)
        } else {
            front
        }
    }
}

/// Whether one of the items is a method of this name.
pub open spec fn has_method(items: Seq<Item>, name: Seq<char>) -> bool {
    exists|i: int| 0 <= i < items.len() && is_method(#[trigger] items[i], name)
}

/// Whether the block implements a trait whose path ends in `Plugin`.
pub open spec fn implements_plugin(block: ImplBlock) -> bool {
    match block.trait_path {
        Some(path) => path@.len() > 0 && path@.last()@ == "Plugin"@,
        None => false,
    }
}

/// What is wrong with a block, if anything is, in the order in which it is
/// looked for.
pub open spec fn block_complaint(block: ImplBlock) -> Option<Complaint> {
    let applies = places(block.items@, "apply"@, true, block.items@.len());
    if !implements_plugin(block) {
        Some(Complaint::NotAPluginImpl)
    } else if applies.len() == 0 {
        Some(Complaint::NoApply)
    } else if applies.len() > 1 {
        Some(Complaint::DuplicateApply(applies[1]))
    } else {
        match services_of(block.items@[applies[0] as int].inputs@) {
            Ok(_) => None,
            Err(complaint) => Some(complaint),
        }
    }
}

/// Whether this is what to write in place of a block: its one `apply` with
/// its services, everything else passed through, and a derived `inject`
/// unless the user wrote one or there is nothing to inject.
pub open spec fn expansion_of(block: ImplBlock, expansion: Expansion) -> bool {
    let items = block.items@;
    let apply = places(items, "apply"@, true, items.len())[0];
    &&& expansion.apply == apply
    &&& expansion.remaining@ == places(items, "apply"@, false, items.len())
    &&& services_of(items[apply as int].inputs@) == Ok::<Seq<ParamView>, Complaint>(
        param_views(expansion.services@),
    )
    &&& expansion.inject == (!has_method(items, "inject"@) && expansion.services@.len() > 0)
}

/// Whether the item is a method of this name.
fn method_is(item: &Item, name: &str) -> (r: bool)
    ensures
        r == is_method(*item, name@),
{
    match &item.method {
        Some(method) => same_text(method.as_str(), name),
        None => false,
    }
}

proof fn lemma_places_grow(items: Seq<Item>, name: Seq<char>, n: nat, m: nat)
    requires
        n <= m,
    ensures
        places(items, name, true, n).len() <= places(items, name, true, m).len(),
        forall|i: int|
            0 <= i < places(items, name, true, n).len() ==> #[trigger] places(
                items,
                name,
                true,
                m,
            )[i] == places(items, name, true, n)[i],
    decreases m,
{
    if n < m {
        lemma_places_grow(items, name, n, (m - 1) as nat);
    }
}

pub proof fn lemma_places(items: Seq<Item>, name: Seq<char>, which: bool, n: nat)
    requires
        n <= items.len() <= usize::MAX,
    ensures
        forall|i: usize| #[trigger]
            places(items, name, which, n).contains(i) <==> i < n && is_method(
                items[i as int],
                name,
            ) == which,
        forall|a: int, b: int|
            0 <= a < b < places(items, name, which, n).len() ==> (#[trigger] places(
                items,
                name,
                which,
                n,
            )[a]) < (#[trigger] places(items, name, which, n)[b]),
    decreases n,
{
    if n > 0 {
        let m = (n - 1) as nat;
        lemma_places(items, name, which, m);
        let front = places(items, name, which, m);
        let out = places(items, name, which, n);
        assert forall|i: usize| #[trigger] out.contains(i) <==> i < n && is_method(
            items[i as int],
            name,
        ) == which by {
            assert(front.contains(i) <==> i < m && is_method(items[i as int], name) == which);
            if is_method(items[m as int], name) == which {
                lemma_push_contains(front, m as usize, i);
            }
        }
        assert forall|a: int| 0 <= a < front.len() implies (#[trigger] front[a]) < m by {
            assert(front.contains(front[a]));
        }
    }
}

/// The attribute loses nothing and makes nothing up: every item of the block
/// is its `apply` or is passed through, never both, and those passed through
/// keep their order.
pub proof fn law_every_item_is_kept(block: ImplBlock, expansion: Expansion, i: usize)
    requires
        block.items@.len() <= usize::MAX,
        block_complaint(block) is None,
        expansion_of(block, expansion),
        i < block.items@.len(),
    ensures
        expansion.remaining@.contains(i) <==> expansion.apply != i,
        forall|a: int, b: int|
            0 <= a < b < expansion.remaining@.len() ==> (#[trigger] expansion.remaining@[a]) < (
            #[trigger] expansion.remaining@[b]),
{
    let items = block.items@;
    lemma_places(items, "apply"@, true, items.len());
    lemma_places(items, "apply"@, false, items.len());
    let applies = places(items, "apply"@, true, items.len());
    assert(applies.contains(applies[0]));
    if is_method(items[i as int], "apply"@) {
        assert(applies.contains(i));
    }
}

/// A parameter is hard exactly if its type is an `Arc<T>`, and soft exactly
/// if it is an `Option<Arc<T>>`; every other type is refused.
pub proof fn law_services_are_arcs(ty: TypeShape, at: usize)
    ensures
        classified(ty, at) is Ok <==> service_of(ty) is Some || (ends_with(ty, "Option"@)
            && argument(ty) is Some && service_of(argument(ty)->0) is Some),
        service_of(ty) matches Some(service) ==> classified(ty, at) == Ok::<
            (usize, bool),
            Complaint,
        >((source(service), false)),
{
    reveal_strlit("Arc");
    reveal_strlit("Option");
    assert("Arc"@.len() != "Option"@.len());
}

/// The `T` of an `Arc<T>`.
pub open spec fn service_of(ty: TypeShape) -> Option<TypeShape> {
    if ends_with(ty, "Arc"@) {
        argument(ty)
    } else {
        None
    }
}

/// Works out what to write in place of an impl block, or what is wrong with
/// it.
pub fn expand(block: &ImplBlock) -> (r: Result<Expansion, Complaint>)
    ensures
        match r {
            Ok(expansion) => block_complaint(*block) is None && expansion_of(*block, expansion),
            Err(complaint) => block_complaint(*block) == Some(complaint),
        },
{
    let is_plugin = match &block.trait_path {
        Some(path) => {
            let n = path.len();
            n > 0 && same_text(path[n - 1].as_str(), "Plugin")
        },
        None => false,
    };
    if !is_plugin {
        return Err(Complaint::NotAPluginImpl);
    }
    let ghost items = block.items@;
    let mut remaining: Vec<usize> = Vec::new();
    let mut apply: Option<usize> = None;
    let mut user_inject: bool = false;
    let mut i: usize = 0;
    while i < block.items.len()
        invariant
            items == block.items@,
            implements_plugin(*block),
            i <= items.len(),
            remaining@ == places(items, "apply"@, false, i as nat),
            places(items, "apply"@, true, i as nat) == (match apply {
                Some(at) => seq![at],
                None => Seq::empty(),
            }),
            apply matches Some(at) ==> at < items.len(),
            user_inject == exists|j: int|
                0 <= j < i && is_method(#[trigger] items[j], "inject"@),
        decreases items.len() - i,
    {
        let ghost before = places(items, "apply"@, true, i as nat);
        if method_is(&block.items[i], "inject") {
            user_inject = true;
        }
        if method_is(&block.items[i], "apply") {
            if apply.is_some() {
                proof {
                    let now = places(items, "apply"@, true, (i + 1) as nat);
                    assert(now == before.push(i));
                    lemma_places_grow(items, "apply"@, (i + 1) as nat, items.len());
                    assert(places(items, "apply"@, true, items.len())[1] == now[1]);
                }
                return Err(Complaint::DuplicateApply(i));
            }
            apply = Some(i);
            assert(places(items, "apply"@, true, (i + 1) as nat) =~= seq![i]);
        } else {
            remaining.push(i);
        }
        i = i + 1;
    }
    let at = match apply {
        Some(at) => at,
        None => {
            return Err(Complaint::NoApply);
        },
    };
    match split_apply_inputs(&block.items[at].inputs) {
        Ok(services) => {
            let inject = !user_inject && services.len() > 0;
            Ok(Expansion { apply: at, remaining, services, inject })
        },
        Err(complaint) => Err(complaint),
    }
}

/// The attribute on an impl block: it takes no arguments.
pub fn plugin(has_arguments: bool, block: &ImplBlock) -> (r: Result<Expansion, Complaint>)
    ensures
        has_arguments ==> r == Err::<Expansion, Complaint>(Complaint::TakesNoArguments),
        !has_arguments ==> match r {
            Ok(expansion) => block_complaint(*block) is None && expansion_of(*block, expansion),
            Err(complaint) => block_complaint(*block) == Some(complaint),
        },
{
    if has_arguments {
        Err(Complaint::TakesNoArguments)
    } else {
        expand(block)
    }
}

} // verus!
