//! What the plugin attribute makes of a block.

use crate::plugin_macro::{
    Argument, Arguments, Complaint, Expansion, ImplBlock, Input, Item, ParamView, Segment,
    ServiceParam, TypeShape, argument, classified, classify_service, ctx_complaint, ends_with,
    has_method, is_method, last_segment, lemma_places, param_views, places, plugin,
    receiver_complaint, services_among, services_of, split_apply_inputs,
};
use vstd::prelude::*;

verus! {

// ---- service types ----

/// Whether the type is a path, without a `<T as Trait>` in front, whose last
/// segment is this one.
pub open spec fn path_to(ty: TypeShape, segment: Segment) -> bool {
    match ty {
        TypeShape::Path(_, qualified, segments) => !qualified && segments@.len() > 0
            && segments@[segments@.len() - 1] == segment,
        TypeShape::Other(_) => false,
    }
}

/// Whether the type is `Name<T>`, with exactly one argument.
pub open spec fn applied(ty: TypeShape, name: Seq<char>, t: TypeShape) -> bool {
    exists|segment: Segment| #[trigger]
        path_to(ty, segment) && segment.name@ == name && (segment.arguments matches
            Arguments::Angle(all) && all@ == seq![Argument::Type(t)])
}

/// The number by which the source of a type is found.
pub open spec fn source_number(ty: TypeShape) -> usize {
    match ty {
        TypeShape::Path(n, _, _) => n,
        TypeShape::Other(n) => n,
    }
}

/// Whether the type is an `Arc<T>`, or where it is soft an `Option<Arc<T>>`.
pub open spec fn wraps(ty: TypeShape, soft: bool, t: TypeShape) -> bool {
    if soft {
        exists|inner: TypeShape| #[trigger]
            applied(ty, "Option"@, inner) && #[trigger] applied(inner, "Arc"@, t)
    } else {
        applied(ty, "Arc"@, t)
    }
}

/// Whether a parameter of this type extracts the service whose source has
/// this number: an `Arc<T>` hard, an `Option<Arc<T>>` soft.
pub open spec fn extracts(ty: TypeShape, dependency: usize, soft: bool) -> bool {
    exists|t: TypeShape| #[trigger] wraps(ty, soft, t) && source_number(t) == dependency
}

/// An `Arc` and an `Option` are two things.
proof fn lemma_names_differ()
    ensures
        "Arc"@ != "Option"@,
{
    reveal_strlit("Arc");
    reveal_strlit("Option");
    assert("Arc"@.len() != "Option"@.len());
}

/// What it takes to be `Name<T>`.
proof fn lemma_applied(ty: TypeShape, name: Seq<char>, t: TypeShape)
    ensures
        applied(ty, name, t) <==> ends_with(ty, name) && argument(ty) == Some(t),
{
    if applied(ty, name, t) {
        let segment = choose|segment: Segment| #[trigger]
            path_to(ty, segment) && segment.name@ == name && (segment.arguments matches
                Arguments::Angle(all) && all@ == seq![Argument::Type(t)]);
        assert(last_segment(ty) == Some(segment));
    }
    if ends_with(ty, name) && argument(ty) == Some(t) {
        let segment = last_segment(ty)->0;
        assert(path_to(ty, segment));
        assert(segment.arguments->Angle_0@ =~= seq![Argument::Type(t)]);
    }
}

/// A parameter is taken for a service exactly where its type is an `Arc<T>`,
/// hard, or an `Option<Arc<T>>`, soft, and then for the service `T`.
pub proof fn law_services_are_what_their_types_say(
    ty: TypeShape,
    at: usize,
    dependency: usize,
    soft: bool,
)
    ensures
        classified(ty, at) == Ok::<(usize, bool), Complaint>((dependency, soft)) <==> extracts(
            ty,
            dependency,
            soft,
        ),
{
    lemma_names_differ();
    if extracts(ty, dependency, soft) {
        let t = choose|t: TypeShape| #[trigger]
            wraps(ty, soft, t) && source_number(t) == dependency;
        if soft {
            let inner = choose|inner: TypeShape| #[trigger]
                applied(ty, "Option"@, inner) && #[trigger] applied(inner, "Arc"@, t);
            lemma_applied(ty, "Option"@, inner);
            lemma_applied(inner, "Arc"@, t);
        } else {
            lemma_applied(ty, "Arc"@, t);
        }
    }
    if classified(ty, at) == Ok::<(usize, bool), Complaint>((dependency, soft)) {
        if ends_with(ty, "Arc"@) {
            let t = argument(ty)->0;
            lemma_applied(ty, "Arc"@, t);
            assert(wraps(ty, false, t));
        } else {
            let inner = argument(ty)->0;
            let t = argument(inner)->0;
            lemma_applied(ty, "Option"@, inner);
            lemma_applied(inner, "Arc"@, t);
            assert(wraps(ty, true, t));
        }
    }
}

/// What is said of a type that is refused: `Arc` and `Option` are told that
/// they take one type, an `Option` of anything but an `Arc` that it is not
/// soft, and every other type that it is no service.
pub proof fn law_refused_types_are_told_why(ty: TypeShape, at: usize, complaint: Complaint)
    requires
        classified(ty, at) == Err::<(usize, bool), Complaint>(complaint),
    ensures
        (forall|segment: Segment| #[trigger]
            path_to(ty, segment) ==> segment.name@ != "Arc"@ && segment.name@ != "Option"@) ==> (
        complaint == Complaint::NotAService(at)),
        forall|segment: Segment| #[trigger]
            path_to(ty, segment) && segment.name@ == "Arc"@ ==> complaint == Complaint::BareArc(at),
        forall|segment: Segment| #[trigger]
            path_to(ty, segment) && segment.name@ == "Option"@ ==> {
                ||| complaint == Complaint::BareOption(at) && forall|inner: TypeShape|
                    !#[trigger] applied(ty, "Option"@, inner)
                ||| exists|inner: TypeShape| #[trigger]
                    applied(ty, "Option"@, inner) && if exists|last: Segment| #[trigger]
                        path_to(inner, last) && last.name@ == "Arc"@ {
                        complaint == Complaint::BareArc(at)
                    } else {
                        complaint == Complaint::NotSoft(at)
                    }
            },
{
    lemma_names_differ();
    if let Some(segment) = last_segment(ty) {
        assert(path_to(ty, segment));
        if segment.name@ == "Option"@ {
            assert forall|inner: TypeShape| #[trigger] applied(ty, "Option"@, inner) <==> argument(
                ty,
            ) == Some(inner) by {
                lemma_applied(ty, "Option"@, inner);
            }
            if let Some(inner) = argument(ty) {
                assert(applied(ty, "Option"@, inner));
                if let Some(last) = last_segment(inner) {
                    assert(path_to(inner, last));
                }
            }
        }
    }
}

/// The same of the function that looks at a type.
pub proof fn law_classifying_a_type(
    ty: TypeShape,
    at: usize,
    r: Result<(usize, bool), Complaint>,
)
    requires
        call_ensures(classify_service, (&ty, at), r),
    ensures
        forall|dependency: usize, soft: bool| #[trigger]
            extracts(ty, dependency, soft) <==> r == Ok::<(usize, bool), Complaint>(
                (dependency, soft),
            ),
{
    assert forall|dependency: usize, soft: bool| #[trigger]
        extracts(ty, dependency, soft) <==> r == Ok::<(usize, bool), Complaint>(
        (dependency, soft),
    ) by {
        law_services_are_what_their_types_say(ty, at, dependency, soft);
    }
}

// ---- the parameters of `apply` ----

/// Whether the parameter is a plain identifier with the type of a service,
/// and this is that service.
pub open spec fn is_service(input: Input, param: ParamView) -> bool {
    match input {
        Input::Typed(Some(pat), ty) => {
            &&& param.pat == pat@
            &&& param.ty == source_number(ty)
            &&& extracts(ty, param.dependency, param.soft)
        },
        _ => false,
    }
}

/// Whether the parameter is a service.
pub open spec fn serves(input: Input) -> bool {
    exists|param: ParamView| is_service(input, param)
}

/// Whether the parameters start with `&self` and a `Ctx`.
pub open spec fn well_begun(inputs: Seq<Input>) -> bool {
    &&& inputs.len() >= 2
    &&& inputs[0] == Input::Receiver(true, false)
    &&& inputs[1] matches Input::Typed(_, ty) && exists|segment: Segment| #[trigger]
        path_to(ty, segment) && segment.name@ == "Ctx"@
}

proof fn lemma_well_begun(inputs: Seq<Input>)
    ensures
        well_begun(inputs) <==> receiver_complaint(inputs) is None && ctx_complaint(inputs)
            is None,
{
    if inputs.len() >= 2 {
        if let Input::Typed(_, ty) = inputs[1] {
            if let Some(segment) = last_segment(ty) {
                assert(path_to(ty, segment));
            }
        }
    }
}

proof fn lemma_services_among(inputs: Seq<Input>, n: nat)
    requires
        2 <= n <= inputs.len() <= usize::MAX,
    ensures
        match services_among(inputs, n) {
            Ok(services) => services.len() == n - 2 && forall|i: int|
                0 <= i < n - 2 ==> is_service(inputs[i + 2], #[trigger] services[i]),
            Err(complaint) => exists|at: int|
                2 <= at < n && #[trigger] faulty(inputs, at, complaint),
        },
    decreases n,
{
    if n > 2 {
        let m = (n - 1) as nat;
        lemma_services_among(inputs, m);
        if services_among(inputs, m) is Ok {
            let front = services_among(inputs, m)->Ok_0;
            match inputs[m as int] {
                Input::Typed(Some(pat), ty) => match classified(ty, m as usize) {
                    Ok((dependency, soft)) => {
                        law_services_are_what_their_types_say(ty, m as usize, dependency, soft);
                        let services = services_among(inputs, n)->Ok_0;
                        assert forall|i: int| 0 <= i < n - 2 implies is_service(
                            inputs[i + 2],
                            #[trigger] services[i],
                        ) by {
                            if i < n - 3 {
                                assert(services[i] == front[i]);
                            }
                        }
                    },
                    Err(complaint) => {
                        lemma_first_faulty(inputs, front, m as int, complaint);
                    },
                },
                Input::Typed(None, _) => {
                    lemma_first_faulty(inputs, front, m as int, Complaint::NotPlain(m as usize));
                },
                Input::Receiver(_, _) => {
                    lemma_first_faulty(
                        inputs,
                        front,
                        m as int,
                        Complaint::SecondReceiver(m as usize),
                    );
                },
            }
        } else {
            let complaint = services_among(inputs, m)->Err_0;
            let at = choose|at: int| 2 <= at < m && #[trigger] faulty(inputs, at, complaint);
            assert(faulty(inputs, at, complaint));
        }
    }
}

/// Whether the parameter at a place is the first that is no service, and this
/// is what is wrong with it.
pub open spec fn faulty(inputs: Seq<Input>, at: int, complaint: Complaint) -> bool {
    &&& forall|i: int|
        2 <= i < at ==> serves(#[trigger] inputs[i])
    &&& match inputs[at] {
        Input::Receiver(_, _) => complaint == Complaint::SecondReceiver(at as usize),
        Input::Typed(None, _) => complaint == Complaint::NotPlain(at as usize),
        Input::Typed(Some(_), ty) => {
            &&& forall|dependency: usize, soft: bool| !#[trigger] extracts(ty, dependency, soft)
            &&& complaint == Complaint::NotAService(at as usize) || complaint
                == Complaint::BareArc(at as usize) || complaint == Complaint::BareOption(
                at as usize,
            ) || complaint == Complaint::NotSoft(at as usize)
        },
    }
}

proof fn lemma_first_faulty(
    inputs: Seq<Input>,
    front: Seq<ParamView>,
    at: int,
    complaint: Complaint,
)
    requires
        2 <= at < inputs.len() <= usize::MAX,
        front.len() == at - 2,
        forall|i: int| 0 <= i < at - 2 ==> is_service(inputs[i + 2], #[trigger] front[i]),
        match inputs[at] {
            Input::Receiver(_, _) => complaint == Complaint::SecondReceiver(at as usize),
            Input::Typed(None, _) => complaint == Complaint::NotPlain(at as usize),
            Input::Typed(Some(_), ty) => classified(ty, at as usize) == Err::<
                (usize, bool),
                Complaint,
            >(complaint),
        },
    ensures
        faulty(inputs, at, complaint),
{
    assert forall|i: int| 2 <= i < at implies serves(#[trigger] inputs[i]) by {
        assert(is_service(inputs[(i - 2) + 2], front[i - 2]));
    }
    if let Input::Typed(Some(_), ty) = inputs[at] {
        assert forall|dependency: usize, soft: bool| !#[trigger] extracts(
            ty,
            dependency,
            soft,
        ) by {
            law_services_are_what_their_types_say(ty, at as usize, dependency, soft);
        }
    }
}

/// An `apply` that is accepted gives one service for each parameter behind
/// the context, in order: each with the name and the type of its parameter,
/// and the dependency and softness that the type says.
pub proof fn law_every_parameter_is_a_service(inputs: Seq<Input>, services: Seq<ParamView>)
    requires
        inputs.len() <= usize::MAX,
        services_of(inputs) == Ok::<Seq<ParamView>, Complaint>(services),
    ensures
        well_begun(inputs),
        services.len() == inputs.len() - 2,
        forall|i: int|
            0 <= i < services.len() ==> is_service(inputs[i + 2], #[trigger] services[i]),
{
    lemma_well_begun(inputs);
    lemma_services_among(inputs, inputs.len());
}

/// An `apply` is accepted if it starts with `&self` and a `Ctx` and everything
/// behind that is a service; if not, what is wrong is said of the first
/// parameter with which something is.
pub proof fn law_refused_parameters_are_named(inputs: Seq<Input>)
    requires
        inputs.len() <= usize::MAX,
    ensures
        services_of(inputs) is Ok <==> well_begun(inputs) && forall|i: int|
            2 <= i < inputs.len() ==> serves(#[trigger] inputs[i]),
        well_begun(inputs) ==> (services_of(inputs) matches Err(complaint) ==> exists|at: int|
            2 <= at < inputs.len() && #[trigger] faulty(inputs, at, complaint)),
        inputs.len() == 0 ==> services_of(inputs) == Err::<Seq<ParamView>, Complaint>(
            Complaint::NoReceiver,
        ),
        inputs.len() > 0 && inputs[0] is Typed ==> services_of(inputs) == Err::<
            Seq<ParamView>,
            Complaint,
        >(Complaint::NoReceiverFirst),
        inputs.len() > 0 && inputs[0] is Receiver && inputs[0] != Input::Receiver(true, false)
            ==> services_of(inputs) == Err::<Seq<ParamView>, Complaint>(Complaint::NotByReference),
        inputs.len() == 1 && inputs[0] == Input::Receiver(true, false) ==> services_of(inputs)
            == Err::<Seq<ParamView>, Complaint>(Complaint::NoCtx),
        inputs.len() >= 2 && inputs[0] == Input::Receiver(true, false) && !well_begun(inputs)
            ==> services_of(inputs) == Err::<Seq<ParamView>, Complaint>(Complaint::NotCtx),
{
    lemma_well_begun(inputs);
    if well_begun(inputs) {
        lemma_services_among(inputs, inputs.len());
        if services_of(inputs) is Ok {
            let services = services_of(inputs)->Ok_0;
            assert forall|i: int| 2 <= i < inputs.len() implies serves(#[trigger] inputs[i]) by {
                assert(is_service(inputs[(i - 2) + 2], services[i - 2]));
            }
        } else {
            let complaint = services_of(inputs)->Err_0;
            let at = choose|at: int|
                2 <= at < inputs.len() && #[trigger] faulty(inputs, at, complaint);
            assert(!serves(inputs[at]));
        }
    }
}

/// The same of the function that splits the parameters.
pub proof fn law_splitting_parameters(
    inputs: Vec<Input>,
    r: Result<Vec<ServiceParam>, Complaint>,
)
    requires
        inputs@.len() <= usize::MAX,
        call_ensures(split_apply_inputs, (&inputs,), r),
    ensures
        match r {
            Ok(services) => {
                &&& services@.len() == inputs@.len() - 2
                &&& forall|i: int|
                    0 <= i < services@.len() ==> is_service(
                        inputs@[i + 2],
                        (#[trigger] services@[i])@,
                    )
            },
            Err(_) => !well_begun(inputs@) || exists|i: int|
                2 <= i < inputs@.len() && !serves(#[trigger] inputs@[i]),
        },
{
    match r {
        Ok(services) => {
            law_every_parameter_is_a_service(inputs@, param_views(services@));
            assert forall|i: int| 0 <= i < services@.len() implies is_service(
                inputs@[i + 2],
                (#[trigger] services@[i])@,
            ) by {
                assert(param_views(services@)[i] == services@[i]@);
            }
        },
        Err(_) => {
            law_refused_parameters_are_named(inputs@);
        },
    }
}

// ---- the block ----

/// Whether the item is a method of this name.
pub open spec fn titled(item: Item, name: Seq<char>) -> bool {
    item.method matches Some(method) && method@ == name
}

/// The attribute writes a block anew exactly where it has no arguments, the
/// block implements a trait called `Plugin`, and one method and no other is
/// called `apply` and takes services only. Then it extracts one service for
/// each parameter behind the context, and derives an `inject` where there is
/// a service and the user wrote none.
pub proof fn law_what_the_attribute_writes(
    has_arguments: bool,
    block: ImplBlock,
    r: Result<Expansion, Complaint>,
)
    requires
        block.items@.len() <= usize::MAX,
        forall|i: int| 0 <= i < block.items@.len() ==> (#[trigger] block.items@[i]).inputs@.len()
            <= usize::MAX,
        call_ensures(plugin, (has_arguments, &block), r),
    ensures
        r matches Ok(expansion) ==> {
            let items = block.items@;
            &&& !has_arguments
            &&& block.trait_path matches Some(path) && path@.len() > 0 && path@[path@.len() - 1]@
                == "Plugin"@
            &&& expansion.apply < items.len()
            &&& forall|i: int|
                0 <= i < items.len() ==> (titled(#[trigger] items[i], "apply"@) <==> i
                    == expansion.apply)
            &&& forall|i: usize| #[trigger]
                expansion.remaining@.contains(i) <==> i < items.len() && i != expansion.apply
            &&& expansion.services@.len() == items[expansion.apply as int].inputs@.len() - 2
            &&& forall|i: int|
                0 <= i < expansion.services@.len() ==> is_service(
                    items[expansion.apply as int].inputs@[i + 2],
                    (#[trigger] expansion.services@[i])@,
                )
            &&& expansion.inject <==> expansion.services@.len() > 0 && forall|i: int|
                0 <= i < items.len() ==> !titled(#[trigger] items[i], "inject"@)
        },
        r matches Ok(expansion) ==> forall|a: int, b: int|
            0 <= a < b < expansion.remaining@.len() ==> (#[trigger] expansion.remaining@[a]) < (
            #[trigger] expansion.remaining@[b]),
        has_arguments ==> r == Err::<Expansion, Complaint>(Complaint::TakesNoArguments),
        !has_arguments && !(block.trait_path matches Some(path) && path@.len() > 0
            && path@[path@.len() - 1]@ == "Plugin"@) ==> r == Err::<Expansion, Complaint>(
            Complaint::NotAPluginImpl,
        ),
        r is Err && !has_arguments ==> {
            let items = block.items@;
            ||| r->Err_0 == Complaint::NotAPluginImpl && !(block.trait_path matches Some(path)
                && path@.len() > 0 && path@[path@.len() - 1]@ == "Plugin"@)
            ||| r->Err_0 == Complaint::NoApply && forall|i: int|
                0 <= i < items.len() ==> !titled(#[trigger] items[i], "apply"@)
            ||| r->Err_0 matches Complaint::DuplicateApply(j) && j < items.len() && titled(
                items[j as int],
                "apply"@,
            ) && exists|i: int| 0 <= i < j && titled(#[trigger] items[i], "apply"@)
            ||| exists|i: int|
                0 <= i < items.len() && titled(#[trigger] items[i], "apply"@) && services_of(
                    items[i].inputs@,
                ) == Err::<Seq<ParamView>, Complaint>(r->Err_0)
        },
{
    let items = block.items@;
    let applies = places(items, "apply"@, true, items.len());
    lemma_places(items, "apply"@, true, items.len());
    lemma_places(items, "apply"@, false, items.len());
    assert forall|i: int| 0 <= i < items.len() implies (titled(#[trigger] items[i], "apply"@)
        <==> applies.contains(i as usize)) by {
        assert(applies.contains(i as usize) <==> is_method(items[i], "apply"@));
    }
    if applies.len() > 0 {
        assert(applies.contains(applies[0]));
    }
    if applies.len() > 1 {
        assert(applies.contains(applies[1]));
        assert(titled(items[applies[0] as int], "apply"@));
        assert(titled(items[applies[1] as int], "apply"@));
    }
    if let Ok(expansion) = r {
        assert(items[expansion.apply as int].inputs@.len() <= usize::MAX);
        law_every_parameter_is_a_service(
            items[expansion.apply as int].inputs@,
            param_views(expansion.services@),
        );
        assert forall|i: int| 0 <= i < expansion.services@.len() implies is_service(
            items[expansion.apply as int].inputs@[i + 2],
            (#[trigger] expansion.services@[i])@,
        ) by {
            assert(param_views(expansion.services@)[i] == expansion.services@[i]@);
        }
        assert forall|i: int| 0 <= i < items.len() implies (titled(#[trigger] items[i], "apply"@)
            <==> i == expansion.apply) by {
            if applies.contains(i as usize) {
                let a = choose|a: int| 0 <= a < applies.len() && applies[a] == i as usize;
                assert(a == 0);
            }
        }
        assert(has_method(items, "inject"@) <==> exists|i: int|
            0 <= i < items.len() && titled(#[trigger] items[i], "inject"@)) by {
            if has_method(items, "inject"@) {
                let i = choose|i: int| 0 <= i < items.len() && is_method(
                    #[trigger] items[i],
                    "inject"@,
                );
                assert(titled(items[i], "inject"@));
            }
            if exists|i: int| 0 <= i < items.len() && titled(#[trigger] items[i], "inject"@) {
                let i = choose|i: int| 0 <= i < items.len() && titled(
                    #[trigger] items[i],
                    "inject"@,
                );
                assert(is_method(items[i], "inject"@));
            }
        }
    } else if applies.len() == 1 {
        assert(titled(items[applies[0] as int], "apply"@));
    } else if applies.len() == 0 {
        assert forall|i: int| 0 <= i < items.len() implies !titled(
            #[trigger] items[i],
            "apply"@,
        ) by {
            assert(!applies.contains(i as usize));
        }
    }
}

} // verus!
