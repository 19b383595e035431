//! Graphs of anchors with values of several types, kept by one engine.

use std::any::Any;
use std::cell::Cell;
use std::collections::HashMap;
use std::rc::Rc;

use anchors::collections::collect::{VecCollect, VectorCollect, VectorVOACollect};
use anchors::collections::dynamic_keyed_vector_collect::DynamicKeyedVectorCollect;
use anchors::collections::ord_map_collect::{values_of, OrdMapCollect, OrdMapCollectStream, OrdMapVOACollectStream};
use anchors::collections::ord_set::OrdSetCollect;
use anchors::collections::persistent::{Dict, DictChange, SetChange, VoaDict};
use anchors::collections::sequence::Small;
use anchors::collections::small::SmallVecCollect;
use anchors::expert::ext::MultiAnchor;
use anchors::expert::ext::cutoff::Cutoff;
use anchors::expert::ext::map::MapAnchor;
use anchors::expert::mixed::{Housed, Houses, OneOf};
use anchors::expert::var::{Constant, VarAnchor};
use anchors::expert::var_either_anchor::VarEA;
use anchors::expert::var_val_or_anchor::{ValOrAnchor, VarEitherAnchor, VarVOA};
use anchors::expert::{Anchor, AnchorInner, AnchorOutput, AsVar, Holds, OutputRef, Outputs, Poll, UpdateContext, VarInner};
use anchors::singlethread::context::{EngineContextMut, ObservedState};
use anchors::singlethread::dot::AnchorDebugInfo;
use anchors::singlethread::engine::Engine;
use anchors::singlethread::recalc::EngineError;
use im_rc::{OrdSet, Vector};

#[derive(Clone)]
enum Val {
    Int(i32),
    Num(usize),
    Version(u64),
    Pair((i32, i32)),
    Nums(Vec<usize>),
    Dict(Dict),
    VoaDict(VoaDict),
    NumSet(OrdSet<usize>),
    Vector(Vector<usize>),
    Small(Small),
    Handle(Anchor<i32>),
}

impl Holds<i32> for Val {
    fn held(self) -> Option<i32> {
        unreachable!()
    }

    fn hold(&self) -> Option<&i32> {
        match self {
            Val::Int(v) => Some(v),
            _ => None,
        }
    }
}

impl Houses<i32> for Val {
    fn housed(_o: i32, _v: Self) -> bool {
        unreachable!()
    }

    fn house(o: &i32) -> Self {
        Val::Int(*o)
    }
}

impl Holds<usize> for Val {
    fn held(self) -> Option<usize> {
        unreachable!()
    }

    fn hold(&self) -> Option<&usize> {
        match self {
            Val::Num(v) => Some(v),
            _ => None,
        }
    }
}

impl Houses<usize> for Val {
    fn housed(_o: usize, _v: Self) -> bool {
        unreachable!()
    }

    fn house(o: &usize) -> Self {
        Val::Num(*o)
    }
}

impl Holds<u64> for Val {
    fn held(self) -> Option<u64> {
        unreachable!()
    }

    fn hold(&self) -> Option<&u64> {
        match self {
            Val::Version(v) => Some(v),
            _ => None,
        }
    }
}

impl Houses<u64> for Val {
    fn housed(_o: u64, _v: Self) -> bool {
        unreachable!()
    }

    fn house(o: &u64) -> Self {
        Val::Version(*o)
    }
}

impl Holds<(i32, i32)> for Val {
    fn held(self) -> Option<(i32, i32)> {
        unreachable!()
    }

    fn hold(&self) -> Option<&(i32, i32)> {
        match self {
            Val::Pair(v) => Some(v),
            _ => None,
        }
    }
}

impl Houses<(i32, i32)> for Val {
    fn housed(_o: (i32, i32), _v: Self) -> bool {
        unreachable!()
    }

    fn house(o: &(i32, i32)) -> Self {
        Val::Pair(*o)
    }
}

impl Holds<Vec<usize>> for Val {
    fn held(self) -> Option<Vec<usize>> {
        unreachable!()
    }

    fn hold(&self) -> Option<&Vec<usize>> {
        match self {
            Val::Nums(v) => Some(v),
            _ => None,
        }
    }
}

impl Houses<Vec<usize>> for Val {
    fn housed(_o: Vec<usize>, _v: Self) -> bool {
        unreachable!()
    }

    fn house(o: &Vec<usize>) -> Self {
        Val::Nums(o.clone())
    }
}

impl Holds<Dict> for Val {
    fn held(self) -> Option<Dict> {
        unreachable!()
    }

    fn hold(&self) -> Option<&Dict> {
        match self {
            Val::Dict(v) => Some(v),
            _ => None,
        }
    }
}

impl Houses<Dict> for Val {
    fn housed(_o: Dict, _v: Self) -> bool {
        unreachable!()
    }

    fn house(o: &Dict) -> Self {
        Val::Dict(o.clone())
    }
}

impl Holds<VoaDict> for Val {
    fn held(self) -> Option<VoaDict> {
        unreachable!()
    }

    fn hold(&self) -> Option<&VoaDict> {
        match self {
            Val::VoaDict(v) => Some(v),
            _ => None,
        }
    }
}

impl Houses<VoaDict> for Val {
    fn housed(_o: VoaDict, _v: Self) -> bool {
        unreachable!()
    }

    fn house(o: &VoaDict) -> Self {
        Val::VoaDict(o.clone())
    }
}

impl Holds<OrdSet<usize>> for Val {
    fn held(self) -> Option<OrdSet<usize>> {
        unreachable!()
    }

    fn hold(&self) -> Option<&OrdSet<usize>> {
        match self {
            Val::NumSet(v) => Some(v),
            _ => None,
        }
    }
}

impl Houses<OrdSet<usize>> for Val {
    fn housed(_o: OrdSet<usize>, _v: Self) -> bool {
        unreachable!()
    }

    fn house(o: &OrdSet<usize>) -> Self {
        Val::NumSet(o.clone())
    }
}

impl Holds<Vector<usize>> for Val {
    fn held(self) -> Option<Vector<usize>> {
        unreachable!()
    }

    fn hold(&self) -> Option<&Vector<usize>> {
        match self {
            Val::Vector(v) => Some(v),
            _ => None,
        }
    }
}

impl Houses<Vector<usize>> for Val {
    fn housed(_o: Vector<usize>, _v: Self) -> bool {
        unreachable!()
    }

    fn house(o: &Vector<usize>) -> Self {
        Val::Vector(o.clone())
    }
}

impl Holds<Small> for Val {
    fn held(self) -> Option<Small> {
        unreachable!()
    }

    fn hold(&self) -> Option<&Small> {
        match self {
            Val::Small(v) => Some(v),
            _ => None,
        }
    }
}

impl Houses<Small> for Val {
    fn housed(_o: Small, _v: Self) -> bool {
        unreachable!()
    }

    fn house(o: &Small) -> Self {
        Val::Small(o.clone())
    }
}

impl Holds<Anchor<i32>> for Val {
    fn held(self) -> Option<Anchor<i32>> {
        unreachable!()
    }

    fn hold(&self) -> Option<&Anchor<i32>> {
        match self {
            Val::Handle(v) => Some(v),
            _ => None,
        }
    }
}

impl Houses<Anchor<i32>> for Val {
    fn housed(_o: Anchor<i32>, _v: Self) -> bool {
        unreachable!()
    }

    fn house(o: &Anchor<i32>) -> Self {
        Val::Handle(o.clone())
    }
}

/// Any kind of anchor.
trait AnyInner {
    fn dirty(&mut self, edge: usize);
    fn poll_updated(&mut self, ctx: &mut Ctx) -> Poll;
    fn output(&self) -> OutputRef<'_, Val>;
    fn is_settable(&self) -> bool;
    fn set_value(&mut self, val: Box<dyn Any>) -> bool;
}

struct Boxed(Box<dyn AnyInner>);

type Ctx = EngineContextMut<Boxed, Val>;

impl AnchorOutput for Boxed {
    type Output = Val;

    type Handed = ();

    fn inv(&self) -> bool {
        unreachable!()
    }

    fn had(&self) -> bool {
        unreachable!()
    }

    fn alias(&self) -> Option<usize> {
        unreachable!()
    }

    fn own(&self) -> Val {
        unreachable!()
    }

    fn honest(&self) -> bool {
        unreachable!()
    }

    fn outside(&self) -> Option<()> {
        unreachable!()
    }

    fn displays(_handed: (), _out: Val) -> bool {
        unreachable!()
    }

    fn output(&self) -> OutputRef<'_, Val> {
        self.0.output()
    }
}

impl AnchorInner<Ctx> for Boxed {
    fn current(&self) -> bool {
        unreachable!()
    }

    fn holds(&self, _told: Outputs<Val>) -> bool {
        unreachable!()
    }

    fn sound(&self, _told: Outputs<Val>) -> bool {
        unreachable!()
    }

    fn right(&self, _seen: Outputs<Val>) -> bool {
        unreachable!()
    }

    fn hears(&self, _later: &Self, _edge: usize) -> bool {
        unreachable!()
    }

    fn polls(&self, _later: &Self, _before: &Ctx, _after: &Ctx, _poll: Poll) -> bool {
        unreachable!()
    }

    fn leans_on(&self, _told: Outputs<Val>, _d: usize) -> bool {
        unreachable!()
    }

    fn less_told(&self, _told: Outputs<Val>, _less: Outputs<Val>) {
    }

    fn more_told(&self, _told: Outputs<Val>, _more: Outputs<Val>) {
    }

    fn shows_outside(&self) {
    }

    fn dirty(&mut self, edge: usize) {
        self.0.dirty(edge)
    }

    fn poll_updated(&mut self, ctx: &mut Ctx) -> Poll {
        self.0.poll_updated(ctx)
    }
}

impl AsVar<Box<dyn Any>> for Boxed {
    fn is_var(&self) -> bool {
        unreachable!()
    }

    fn last_set(&self) -> Box<dyn Any> {
        unreachable!()
    }

    fn handing(&self, _val: Box<dyn Any>) -> Option<()> {
        unreachable!()
    }

    fn set_to(&self, _later: &Self, _val: Box<dyn Any>, _marks: bool) -> bool {
        unreachable!()
    }

    fn is_settable(&self) -> bool {
        self.0.is_settable()
    }

    fn set_value(&mut self, val: Box<dyn Any>) -> bool {
        self.0.set_value(val)
    }
}

impl VarInner<Ctx, Box<dyn Any>> for Boxed {
    fn set_keeps(&self, _later: &Self, _val: Box<dyn Any>, _marks: bool) {
    }
}

/// An anchor that nothing can be set on.
struct Fixed<M>(Housed<M, Val>);

impl<M: AnchorInner<Ctx>> AnyInner for Fixed<M> where Val: Houses<M::Output> {
    fn dirty(&mut self, edge: usize) {
        AnchorInner::<Ctx>::dirty(&mut self.0, edge)
    }

    fn poll_updated(&mut self, ctx: &mut Ctx) -> Poll {
        self.0.poll_updated(ctx)
    }

    fn output(&self) -> OutputRef<'_, Val> {
        self.0.output()
    }

    fn is_settable(&self) -> bool {
        false
    }

    fn set_value(&mut self, _val: Box<dyn Any>) -> bool {
        panic!("not a variable")
    }
}

/// An anchor that values of type `T` can be set on.
struct Settable<M, T>(Housed<M, Val>, std::marker::PhantomData<T>);

impl<M: AnchorInner<Ctx> + AsVar<T>, T: 'static> AnyInner for Settable<M, T> where Val: Houses<M::Output> {
    fn dirty(&mut self, edge: usize) {
        AnchorInner::<Ctx>::dirty(&mut self.0, edge)
    }

    fn poll_updated(&mut self, ctx: &mut Ctx) -> Poll {
        self.0.poll_updated(ctx)
    }

    fn output(&self) -> OutputRef<'_, Val> {
        self.0.output()
    }

    fn is_settable(&self) -> bool {
        AsVar::<T>::is_settable(&self.0)
    }

    fn set_value(&mut self, val: Box<dyn Any>) -> bool {
        self.0.set_value(*val.downcast::<T>().unwrap())
    }
}

struct Net {
    engine: Engine<Boxed, Val>,
}

impl Net {
    fn new() -> Self {
        Net { engine: Engine::new() }
    }

    fn next_token(&self) -> usize {
        self.engine.token_audit_snapshot().next_token as usize
    }

    fn put<M: AnchorInner<Ctx> + 'static>(&mut self, inner: M) -> Anchor<M::Output> where Val: Houses<M::Output> {
        let anchor = self.engine.mount(Boxed(Box::new(Fixed(Housed::new(inner)))));
        Anchor::new_from_expert(anchor.token())
    }

    fn var<T: Clone + 'static>(&mut self, val: T) -> Anchor<T> where Val: Houses<T> {
        let inner: Housed<VarAnchor<T>, Val> = Housed::new(VarAnchor::new(val));
        let anchor = self.engine.mount(Boxed(Box::new(Settable(inner, std::marker::PhantomData::<T>))));
        Anchor::new_from_expert(anchor.token())
    }

    fn voa<T: Clone + 'static>(&mut self, val: VarVOA<T>) -> Anchor<T> where Val: Houses<T> {
        let inner: Housed<VarEitherAnchor<T>, Val> = Housed::new(val);
        let anchor = self.engine.mount(Boxed(Box::new(Settable(inner, std::marker::PhantomData::<ValOrAnchor<T>>))));
        Anchor::new_from_expert(anchor.token())
    }

    fn set<T: 'static>(&mut self, var: &Anchor<T>, val: T) {
        assert!(self.engine.anchor(var.token()).unwrap().is_settable());
        self.engine.set::<Box<dyn Any>>(var.token(), Box::new(val));
    }

    fn set_voa<T: 'static>(&mut self, var: &Anchor<T>, val: ValOrAnchor<T>) {
        self.engine.set::<Box<dyn Any>>(var.token(), Box::new(val));
    }

    fn try_get<O: Clone>(&mut self, anchor: &Anchor<O>) -> Result<O, EngineError> where Val: Holds<O> {
        match self.engine.get(&Anchor::new_from_expert(anchor.token())) {
            Ok(val) => Ok(<Val as Holds<O>>::hold(&val).unwrap().clone()),
            Err(error) => Err(error),
        }
    }

    fn get<O: Clone>(&mut self, anchor: &Anchor<O>) -> O where Val: Holds<O> {
        self.try_get(anchor).unwrap()
    }
}

fn dict(entries: &[(usize, &Anchor<usize>)]) -> Dict {
    let mut dict = Dict::new();
    for (key, anchor) in entries {
        dict.insert(*key, anchor.token());
    }
    dict
}

fn key(name: char) -> usize {
    name as usize
}

/// Lets a number through once.
fn changed() -> impl FnMut(&usize) -> bool {
    let mut old_num_opt: Option<usize> = None;
    move |num: &usize| {
        if let Some(old_num) = old_num_opt {
            if old_num == *num {
                return false;
            }
        }
        old_num_opt = Some(*num);
        true
    }
}

#[test]
fn collect_collect() {
    let mut net = Net::new();
    let a = net.var(1usize);
    let b = net.var(2usize);
    let c = net.var(5usize);
    let nums = net.put(VecCollect::new_to_anchor(vec![a.clone(), b.clone(), c.clone()]));
    let sum = net.put(nums.map(|nums: &Vec<usize>| nums.iter().sum::<usize>()));
    let ns = net.put(nums.map(|nums: &Vec<usize>| nums.len()));
    assert_eq!(net.get(&sum), 8);
    net.set(&a, 2);
    assert_eq!(net.get(&sum), 9);
    net.set(&c, 1);
    assert_eq!(net.get(&sum), 5);
    assert_eq!(net.get(&ns), 3);
}

#[test]
fn ord_map_collect_collect_k_change() {
    let mut net = Net::new();
    let a = net.var(1usize);
    let b = net.var(2usize);
    let c = net.var(5usize);
    let d = net.var(10usize);
    let dict1 = dict(&[(1, &a), (2, &b), (3, &c)]);
    let dict2 = dict(&[(9, &a), (2, &b), (3, &c)]);
    let dict3 = dict(&[(10, &d), (2, &b), (3, &c)]);

    // the collection of each dictionary, by way of the collection's own constructor
    let mut collections: Vec<(Dict, Anchor<Dict>)> = Vec::new();
    for d in [&dict1, &dict2, &dict3] {
        let token = net.next_token();
        let (constant, stream) = OrdMapCollect::new_to_anchor(d.clone(), token);
        assert_eq!(net.put(constant).token(), token);
        let nums = net.put(stream);
        collections.push((d.clone(), nums));
    }
    let f = net.var(dict1.clone());
    let nums = net.put(f.then_by(move |d: &Dict| collections.iter().find(|c| c.0 == *d).unwrap().1.clone()));
    let sum = net.put(nums.map(|nums: &Dict| nums.values().sum::<usize>()));
    assert_eq!(net.get(&sum), 8);
    net.set(&f, dict2.clone());
    assert_eq!(net.get(&sum), 8);
    net.set(&f, dict3.clone());
    assert_eq!(net.get(&sum), 17);

    // the same, from a value
    let mut collections: Vec<(Dict, Anchor<Dict>)> = Vec::new();
    for d in [&dict1, &dict2, &dict3] {
        let token = net.next_token();
        let (constant, stream) = OrdMapCollectStream::from_value(d.clone(), token);
        assert_eq!(net.put(constant).token(), token);
        let nums = net.put(stream);
        collections.push((d.clone(), nums));
    }
    let f2 = net.var(dict1.clone());
    let nums2 = net.put(f2.then_by(move |d: &Dict| collections.iter().find(|c| c.0 == *d).unwrap().1.clone()));
    let sum = net.put(nums2.map(|nums: &Dict| nums.values().sum::<usize>()));
    assert_eq!(net.get(&sum), 8);
    net.set(&f2, dict2.clone());
    assert_eq!(net.get(&sum), 8);
    net.set(&f2, dict3.clone());
    assert_eq!(net.get(&sum), 17);

    // the same, of an anchor that holds the dictionary
    let f2 = net.var(dict1);
    let nums2 = net.put(OrdMapCollectStream::new_to_anchor(f2.clone()));
    let sum = net.put(nums2.map(|nums: &Dict| nums.values().sum::<usize>()));
    assert_eq!(net.get(&sum), 8);
    net.set(&f2, dict2);
    assert_eq!(net.get(&sum), 8);
    net.set(&f2, dict3);
    assert_eq!(net.get(&sum), 17);
}

#[test]
fn ord_map_collect_collect() {
    let mut net = Net::new();
    let a = net.var(1usize);
    let b = net.var(2usize);
    let c = net.var(5usize);
    let bcut = net.put(b.cutoff(changed()));
    let _bw = net.put(bcut.map(|v: &usize| *v));
    let f = dict(&[(1, &a), (2, &b), (3, &c)]);
    let token = net.next_token();
    let (constant, stream) = OrdMapCollect::new_to_anchor(f, token);
    net.put(constant);
    let nums = net.put(stream);
    let sum = net.put(nums.map(|nums: &Dict| nums.values().sum::<usize>()));
    let ns = net.put(nums.map(|nums: &Dict| nums.len()));
    assert_eq!(net.get(&sum), 8);
    net.set(&a, 2);
    assert_eq!(net.get(&sum), 9);
    net.set(&c, 1);
    assert_eq!(net.get(&sum), 5);
    assert_eq!(net.get(&ns), 3);
    net.set(&b, 9);
    assert_eq!(net.get(&sum), 12);
    net.set(&b, 9);
    assert_eq!(net.get(&sum), 12);
}

#[test]
fn with_anchor() {
    let mut net = Net::new();
    let mut dict = Dict::new();
    let a = net.var(dict.clone());
    dict.insert(key('a'), 1);
    dict.insert(key('b'), 23);
    dict.insert(key('c'), 5);
    dict.insert(key('d'), 24);
    net.set(&a, dict.clone());
    let var_1 = net.var(key('b'));
    let filtered = net.put(
        a.filter_map_with_anchor(10, &var_1, |aa: &usize, k: &usize, v: &usize| if k != aa { Some(*v) } else { None }),
    );
    let mut expected = Dict::new();
    expected.insert(key('a'), 1);
    expected.insert(key('c'), 5);
    expected.insert(key('d'), 24);
    assert_eq!(net.get(&filtered), expected);
    net.set(&var_1, key('c'));
    let mut expected1 = Dict::new();
    expected1.insert(key('a'), 1);
    expected1.insert(key('b'), 23);
    expected1.insert(key('d'), 24);
    assert_eq!(net.get(&filtered), expected1);
    let sum = net.put(filtered.map(|d: &Dict| d.values().sum::<usize>()));
    assert_eq!(net.get(&sum), 1 + 23 + 24);

    let mut dict = Dict::new();
    let a = net.var(dict.clone());
    let var_1 = net.var(key('b'));
    let filtered = net.put(
        a.filter_map_with_anchor(8, &var_1, |aa: &usize, k: &usize, v: &usize| if k != aa { Some(*v) } else { None }),
    );
    let sum = net.put(filtered.map(|d: &Dict| d.values().sum::<usize>()));
    assert_eq!(net.get(&sum), 0);
    dict.insert(key('a'), 1);
    net.set(&a, dict.clone());
    assert_eq!(net.get(&sum), 1);
    dict.insert(key('a'), 2);
    net.set(&a, dict.clone());
    assert_eq!(net.get(&sum), 2);
    dict.remove(&key('a'));
    net.set(&a, dict.clone());
    assert_eq!(net.get(&sum), 0);
    dict.insert(key('b'), 3);
    net.set(&a, dict.clone());
    assert_eq!(net.get(&sum), 0);
    net.set(&var_1, key('c'));
    assert_eq!(net.get(&sum), 3);
    dict.insert(key('c'), 4);
    net.set(&a, dict.clone());
    assert_eq!(net.get(&sum), 3);
    net.set(&var_1, key('d'));
    assert_eq!(net.get(&sum), 7);
}

#[test]
fn ord_map_methods_test_filter() {
    let mut net = Net::new();
    let mut dict = Dict::new();
    let a = net.var(dict.clone());
    let b = net.put(a.filter(0, |_: &usize, n: &usize| *n > 10));
    assert_eq!(0, net.get(&b).len());

    dict.insert(key('a'), 1);
    dict.insert(key('b'), 23);
    dict.insert(key('c'), 5);
    dict.insert(key('d'), 24);
    net.set(&a, dict.clone());
    let b_out = net.get(&b);
    assert_eq!(2, b_out.len());
    assert_eq!(Some(&23), b_out.get(&key('b')));
    assert_eq!(Some(&24), b_out.get(&key('d')));

    dict.insert(key('a'), 25);
    dict.insert(key('b'), 5);
    dict.remove(&key('d'));
    dict.insert(key('e'), 50);
    net.set(&a, dict.clone());
    let b_out = net.get(&b);
    assert_eq!(2, b_out.len());
    assert_eq!(Some(&25), b_out.get(&key('a')));
    assert_eq!(Some(&50), b_out.get(&key('e')));
}

fn mapped_dictionaries(pool_size: usize) {
    let mut net = Net::new();
    let mut dict = Dict::new();
    let a = net.var(dict.clone());
    let b = net.put(a.map_(pool_size, |_: &usize, n: &usize| *n + 1));
    assert_eq!(0, net.get(&b).len());

    dict.insert(key('a'), 1);
    dict.insert(key('b'), 2);
    dict.insert(key('c'), 3);
    dict.insert(key('d'), 4);
    net.set(&a, dict.clone());
    let b_out = net.get(&b);
    assert_eq!(4, b_out.len());
    assert_eq!(Some(&2), b_out.get(&key('a')));
    assert_eq!(Some(&3), b_out.get(&key('b')));
    assert_eq!(Some(&4), b_out.get(&key('c')));
    assert_eq!(Some(&5), b_out.get(&key('d')));

    dict.insert(key('a'), 10);
    dict.insert(key('b'), 11);
    dict.remove(&key('d'));
    dict.insert(key('e'), 12);
    net.set(&a, dict.clone());
    let b_out = net.get(&b);
    assert_eq!(4, b_out.len());
    assert_eq!(Some(&11), b_out.get(&key('a')));
    assert_eq!(Some(&12), b_out.get(&key('b')));
    assert_eq!(Some(&4), b_out.get(&key('c')));
    assert_eq!(Some(&13), b_out.get(&key('e')));
}

#[test]
fn ord_map_methods_test_map() {
    mapped_dictionaries(4);
}

#[test]
fn ord_set_methods_test_map() {
    mapped_dictionaries(1);
}

/// Passes everything on but the news that something has changed.
struct DirtyDropped {
    inner: OrdMapVOACollectStream,
}

impl AnchorOutput for DirtyDropped {
    type Output = Dict;

    type Handed = ();

    fn inv(&self) -> bool {
        unreachable!()
    }

    fn had(&self) -> bool {
        unreachable!()
    }

    fn alias(&self) -> Option<usize> {
        unreachable!()
    }

    fn own(&self) -> Dict {
        unreachable!()
    }

    fn honest(&self) -> bool {
        unreachable!()
    }

    fn outside(&self) -> Option<()> {
        unreachable!()
    }

    fn displays(_handed: (), _out: Dict) -> bool {
        unreachable!()
    }

    fn output(&self) -> OutputRef<'_, Dict> {
        self.inner.output()
    }
}

impl AnchorInner<Ctx> for DirtyDropped {
    fn current(&self) -> bool {
        unreachable!()
    }

    fn holds(&self, _told: Outputs<Val>) -> bool {
        unreachable!()
    }

    fn sound(&self, _told: Outputs<Val>) -> bool {
        unreachable!()
    }

    fn right(&self, _seen: Outputs<Val>) -> bool {
        unreachable!()
    }

    fn hears(&self, _later: &Self, _edge: usize) -> bool {
        unreachable!()
    }

    fn polls(&self, _later: &Self, _before: &Ctx, _after: &Ctx, _poll: Poll) -> bool {
        unreachable!()
    }

    fn leans_on(&self, _told: Outputs<Val>, _d: usize) -> bool {
        unreachable!()
    }

    fn less_told(&self, _told: Outputs<Val>, _less: Outputs<Val>) {
    }

    fn more_told(&self, _told: Outputs<Val>, _more: Outputs<Val>) {
    }

    fn shows_outside(&self) {
    }

    fn dirty(&mut self, _edge: usize) {
    }

    fn poll_updated(&mut self, ctx: &mut Ctx) -> Poll {
        self.inner.poll_updated(ctx)
    }
}

#[test]
fn voa_collect_stream_should_rebuild_on_input_updated_even_without_dirty_forwarding() {
    let mut net = Net::new();
    let a = net.var(1usize);
    let c = net.var(10usize);
    let mut dict = VoaDict::new();
    dict.insert(1, (true, a.token()));
    dict.insert(2, (false, 2));
    let dict_var = net.var(dict.clone());
    let collected = net.put(DirtyDropped { inner: OrdMapVOACollectStream::new_to_anchor(dict_var.clone()) });
    let sum = net.put(collected.map(|m: &Dict| m.values().sum::<usize>()));
    assert_eq!(net.get(&sum), 3);
    dict.insert(3, (true, c.token()));
    net.set(&dict_var, dict);
    assert_eq!(net.get(&sum), 13);
}

/// The eight entries that the collections of values and anchors start from.
fn eight(a: &Anchor<usize>, b: &Anchor<usize>, c: &Anchor<usize>, d: &Anchor<usize>) -> VoaDict {
    let mut dict = VoaDict::new();
    dict.insert(1, (true, a.token()));
    dict.insert(2, (false, 1));
    dict.insert(3, (true, b.token()));
    dict.insert(4, (false, 2));
    dict.insert(5, (true, c.token()));
    dict.insert(6, (false, 5));
    dict.insert(7, (true, d.token()));
    dict.insert(8, (false, 10));
    dict
}

#[test]
fn ord_map_voa_collect_collect_k_change() {
    let mut net = Net::new();
    let a = net.var(1usize);
    let b = net.var(2usize);
    let c = net.var(5usize);
    let d = net.var(10usize);
    let dict1 = eight(&a, &b, &c, &d);
    let mut dict2 = eight(&a, &b, &c, &d);
    dict2.remove(&1);
    dict2.insert(9, (true, a.token()));
    let mut dict3 = VoaDict::new();
    dict3.insert(1, (false, 2));
    dict3.insert(4, (true, c.token()));
    dict3.insert(7, (false, 10));

    let mut collections: Vec<(VoaDict, Anchor<Dict>)> = Vec::new();
    for d in [&dict1, &dict2, &dict3] {
        let token = net.next_token();
        let (constant, stream) = OrdMapVOACollectStream::from_value(d.clone(), token);
        assert_eq!(net.put(constant).token(), token);
        let nums = net.put(stream);
        collections.push((d.clone(), nums));
    }
    let f = net.var(dict1.clone());
    let nums = net.put(f.then_by(move |d: &VoaDict| collections.iter().find(|c| c.0 == *d).unwrap().1.clone()));
    let sum = net.put(nums.map(|nums: &Dict| nums.values().sum::<usize>()));
    assert_eq!(net.get(&sum), 36);
    net.set(&f, dict2.clone());
    assert_eq!(net.get(&sum), 36);
    net.set(&f, dict3.clone());
    assert_eq!(net.get(&sum), 17);

    let f2 = net.var(dict1);
    let nums2 = net.put(OrdMapVOACollectStream::new_to_anchor(f2.clone()));
    let sum2 = net.put(nums2.map(|nums: &Dict| nums.values().sum::<usize>()));
    assert_eq!(net.get(&sum2), 36);
    net.set(&f2, dict2);
    assert_eq!(net.get(&sum2), 36);
    net.set(&f2, dict3);
    assert_eq!(net.get(&sum2), 17);
}

#[test]
fn ord_map_voa_collect_collect() {
    let mut net = Net::new();
    let a = net.var(1usize);
    let b = net.var(2usize);
    let c = net.var(5usize);
    let d = net.var(10usize);
    let mut dict = eight(&a, &b, &c, &d);
    let f = net.var(dict.clone());
    let nums = net.put(OrdMapVOACollectStream::new_to_anchor(f.clone()));
    let sum = net.put(nums.map(|nums: &Dict| nums.values().sum::<usize>()));
    assert_eq!(net.get(&sum), 36);
    net.set(&a, 2);
    assert_eq!(net.get(&sum), 37);
    dict.insert(2, (false, 10));
    net.set(&f, dict);
    assert_eq!(net.get(&sum), 37 + 9);
}

#[test]
fn find_change() {
    let mut net = Net::new();
    let a = net.var(1i32);
    assert_eq!(net.get(&a), 1);
    net.set(&a, 2);
    assert_eq!(net.get(&a), 2);
}

#[test]
fn ord_set_collect() {
    let mut net = Net::new();
    let a = net.var(1usize);
    let b = net.var(2usize);
    let c = net.var(5usize);
    let mut tokens: OrdSet<usize> = OrdSet::new();
    tokens.insert(a.token());
    tokens.insert(b.token());
    tokens.insert(c.token());
    let nums = net.put(OrdSetCollect::new(tokens));
    let sum = net.put(nums.map(|nums: &OrdSet<usize>| nums.iter().sum::<usize>()));
    let ns = net.put(nums.map(|nums: &OrdSet<usize>| nums.len()));
    assert_eq!(net.get(&sum), 8);
    assert_eq!(net.get(&sum), 8);
    net.set(&a, 2);
    assert_eq!(net.get(&sum), 7);
    net.set(&c, 1);
    assert_eq!(net.get(&sum), 3);
    assert_eq!(net.get(&ns), 2);
    net.set(&b, 9);
    assert_eq!(net.get(&sum), 12);
    assert_eq!(net.get(&sum), 12);
    net.set(&b, 9);
    assert_eq!(net.get(&sum), 12);
    assert_eq!(net.get(&sum), 12);
}

#[test]
fn ord_set_methods_test_filter() {
    let mut net = Net::new();
    let mut ordset: OrdSet<usize> = OrdSet::new();
    let a = net.var(ordset.clone());
    let b = net.put(a.filter(|n: &usize| *n == key('b') || *n == key('d')));
    assert_eq!(0, net.get(&b).len());

    ordset.insert(key('a'));
    ordset.insert(key('b'));
    ordset.insert(key('c'));
    ordset.insert(key('d'));
    net.set(&a, ordset.clone());
    assert_eq!(2, net.get(&b).len());

    ordset.insert(key('a'));
    ordset.insert(key('b'));
    ordset.remove(&key('d'));
    ordset.insert(key('e'));
    net.set(&a, ordset.clone());
    assert_eq!(1, net.get(&b).len());
}

#[test]
fn smallvec_collect() {
    let mut net = Net::new();
    let a = net.var(1usize);
    let b = net.var(2usize);
    let c = net.var(5usize);
    let bcut = net.put(b.cutoff(changed()));
    let bw = net.put(bcut.map(|v: &usize| *v));
    let nums = net.put(SmallVecCollect::new(vec![a.clone(), bw, c.clone()]));
    let sum = net.put(nums.map(|nums: &Small| nums.to_vec().iter().sum::<usize>()));
    let ns = net.put(nums.map(|nums: &Small| nums.to_vec().len()));
    assert_eq!(net.get(&sum), 8);
    net.set(&a, 2);
    assert_eq!(net.get(&sum), 9);
    net.set(&c, 1);
    assert_eq!(net.get(&sum), 5);
    assert_eq!(net.get(&ns), 3);
    net.set(&b, 9);
    assert_eq!(net.get(&sum), 12);
    net.set(&b, 9);
    assert_eq!(net.get(&sum), 12);
    assert_eq!(net.get(&nums).to_vec(), vec![2, 9, 1]);
}

#[test]
fn vector_collect() {
    let mut net = Net::new();
    let a = net.var(1usize);
    let b = net.var(2usize);
    let c = net.var(5usize);
    let bcut = net.put(b.cutoff(changed()));
    let bw = net.put(bcut.map(|v: &usize| *v));
    let nums = net.put(VectorCollect::new_to_anchor(vec![a.clone(), bw, c.clone()]));
    let sum = net.put(nums.map(|nums: &Vector<usize>| nums.iter().sum::<usize>()));
    let ns = net.put(nums.map(|nums: &Vector<usize>| nums.len()));
    assert_eq!(net.get(&sum), 8);
    net.set(&a, 2);
    assert_eq!(net.get(&sum), 9);
    net.set(&c, 1);
    assert_eq!(net.get(&sum), 5);
    assert_eq!(net.get(&ns), 3);
    net.set(&b, 9);
    assert_eq!(net.get(&sum), 12);
    net.set(&b, 9);
    assert_eq!(net.get(&sum), 12);
}

#[test]
fn vector_voa_collect() {
    let mut net = Net::new();
    let a = net.var(1usize);
    let b = net.var(2usize);
    let c = net.var(5usize);
    let bcut = net.put(b.cutoff(changed()));
    let bw = net.put(bcut.map(|v: &usize| *v));
    let nums = net.put(
        VectorVOACollect::new_to_anchor(
            vec![ValOrAnchor::Anchor(a.clone()), ValOrAnchor::Val(22), ValOrAnchor::Anchor(bw), ValOrAnchor::Anchor(c.clone())],
        ),
    );
    let sum = net.put(nums.map(|nums: &Vector<usize>| nums.iter().sum::<usize>()));
    let ns = net.put(nums.map(|nums: &Vector<usize>| nums.len()));
    assert_eq!(net.get(&sum), 8 + 22);
    net.set(&a, 2);
    assert_eq!(net.get(&sum), 9 + 22);
    net.set(&c, 1);
    assert_eq!(net.get(&sum), 2 + 2 + 1 + 22);
    assert_eq!(net.get(&ns), 4);
    net.set(&b, 9);
    assert_eq!(net.get(&sum), 2 + 9 + 1 + 22);
    net.set(&b, 9);
    assert_eq!(net.get(&sum), 2 + 9 + 1 + 22);
}

#[test]
fn dirty_observer_can_gate_heavy_map() {
    let map_calls_0 = Rc::new(Cell::new(0usize));
    let map_calls = Rc::new(Cell::new(0usize));
    let calls_0 = map_calls_0.clone();
    let calls = map_calls.clone();
    let mut net = Net::new();
    let a = net.var(1i32);
    let b = net.var(2i32);
    let mapped_0 = net.put(
        (a.clone(), b.clone()).map(
            move |a: &i32, b: &i32| {
                calls_0.set(calls_0.get() + 1);
                (*a + 1, *b + 1)
            },
        ),
    );
    let mapped = net.put(
        mapped_0.map(
            move |v: &(i32, i32)| {
                calls.set(calls.get() + 1);
                (v.0 + 1, v.1 + 1)
            },
        ),
    );
    let obs = net.put((a.clone(), b.clone()).dirty_observer());

    let v1 = net.get(&obs);
    assert_eq!(v1, 1);
    assert_eq!(map_calls.get(), 0);
    assert_eq!(map_calls_0.get(), 0);

    let v2 = net.get(&obs);
    assert_eq!(v2, v1);
    assert_eq!(map_calls.get(), 0);
    assert_eq!(map_calls_0.get(), 0);

    net.set(&a, 10);
    let v3 = net.get(&obs);
    assert_eq!(v3, v1 + 1);
    assert_eq!(map_calls.get(), 0);
    assert_eq!(map_calls_0.get(), 0);

    net.set(&b, 20);
    let v4 = net.get(&obs);
    assert_eq!(v4, v3 + 1);
    assert_eq!(map_calls.get(), 0);
    assert_eq!(map_calls_0.get(), 0);

    let val = net.get(&mapped);
    assert_eq!(val, (12, 22));
    assert_eq!(map_calls.get(), 1);
    assert_eq!(map_calls_0.get(), 1);
}

#[test]
fn either_tuple() {
    let mut net = Net::new();
    let a = net.voa(VarVOA::new(ValOrAnchor::Val(1i32)));
    let b = net.var(2i32);
    let c = net.var(3i32);
    let d = net.var(4i32);
    let c2 = c.clone();
    let d2 = d.clone();
    let a2 = a.clone();
    let b2 = b.clone();
    let aw = net.put(
        (a.clone(), b.clone()).either(
            move |aa: &i32, bb: &i32| -> ValOrAnchor<i32> {
                if aa + bb < 3 {
                    ValOrAnchor::Anchor(c2.clone())
                } else if aa + bb == 3 {
                    ValOrAnchor::Val(100)
                } else {
                    ValOrAnchor::Anchor(d2.clone())
                }
            },
        ),
    );
    let awthen = net.put(aw.then_by(move |x: &i32| if *x > 3 { a2.clone() } else { b2.clone() }));
    let awmap = net.put(aw.map(|x: &i32| *x + 1));
    assert_eq!(net.get(&aw), 100);
    assert_eq!(net.get(&awthen), 1);
    assert_eq!(net.get(&awmap), 101);

    net.set_voa(&a, ValOrAnchor::Val(2));
    assert_eq!(net.get(&aw), 4);
    assert_eq!(net.get(&awthen), 2);
    assert_eq!(net.get(&awmap), 5);

    net.set(&b, 0);
    assert_eq!(net.get(&aw), 3);
    assert_eq!(net.get(&awthen), 0);
    assert_eq!(net.get(&awmap), 4);

    net.set(&c, 10);
    assert_eq!(net.get(&aw), 10);
    assert_eq!(net.get(&awthen), 2);
    assert_eq!(net.get(&awmap), 11);
}

#[test]
fn aaaxx2() {
    let mut net = Net::new();
    let a = net.voa(VarVOA::new(ValOrAnchor::Val(1i32)));
    let c = net.var(22i32);
    let d = net.var(-1i32);
    let b = net.var(9i32);
    let bw = b.clone();
    let w = net.put(
        a.either(
            move |x: &i32| -> ValOrAnchor<i32> {
                if *x >= 2 {
                    ValOrAnchor::Anchor(bw.clone())
                } else {
                    ValOrAnchor::Val(*x)
                }
            },
        ),
    );
    let ww = net.put(w.map(|x: &i32| x + 1));
    assert_eq!(net.get(&w), 1);
    assert_eq!(net.get(&ww), 2);
    net.set_voa(&a, ValOrAnchor::Val(-1));
    assert_eq!(net.get(&w), -1);
    assert_eq!(net.get(&ww), 0);
    net.set_voa(&a, ValOrAnchor::Val(3));
    assert_eq!(net.get(&w), 9);
    assert_eq!(net.get(&ww), 10);
    net.set(&b, 11);
    assert_eq!(net.get(&w), 11);
    assert_eq!(net.get(&ww), 12);
    net.set_voa(&a, ValOrAnchor::Val(-2));
    assert_eq!(net.get(&w), -2);
    assert_eq!(net.get(&ww), -1);
    net.set_voa(&a, ValOrAnchor::Anchor(c.clone()));
    assert_eq!(net.get(&w), 11);
    assert_eq!(net.get(&ww), 12);
    net.set_voa(&a, ValOrAnchor::Anchor(d.clone()));
    assert_eq!(net.get(&w), -1);
    assert_eq!(net.get(&ww), 0);
    net.set_voa(&a, ValOrAnchor::Anchor(c.clone()));
    assert_eq!(net.get(&w), 11);
    assert_eq!(net.get(&ww), 12);
}

#[test]
fn aaaxx() {
    let mut net = Net::new();
    let a = net.voa(VarVOA::new(ValOrAnchor::Val(1i32)));
    let _c = net.var(22i32);
    let d = net.var(-1i32);
    let b = net.var(9i32);
    let bw = b.clone();
    let w = net.put(
        a.either(
            move |x: &i32| -> ValOrAnchor<i32> {
                if *x >= 2 {
                    ValOrAnchor::Anchor(bw.clone())
                } else {
                    ValOrAnchor::Val(*x)
                }
            },
        ),
    );
    assert_eq!(net.get(&w), 1);
    net.set_voa(&a, ValOrAnchor::Val(-1));
    assert_eq!(net.get(&w), -1);
    net.set_voa(&a, ValOrAnchor::Val(3));
    assert_eq!(net.get(&w), 9);
    net.set(&b, 11);
    assert_eq!(net.get(&w), 11);
    net.set_voa(&a, ValOrAnchor::Val(-2));
    assert_eq!(net.get(&w), -2);
    net.set_voa(&a, ValOrAnchor::Anchor(b.clone()));
    assert_eq!(net.get(&w), 11);
    net.set_voa(&a, ValOrAnchor::Anchor(d.clone()));
    assert_eq!(net.get(&w), -1);
    net.set_voa(&a, ValOrAnchor::Anchor(b.clone()));
    assert_eq!(net.get(&w), 11);
}

#[test]
fn update_observer_increments_on_child_update() {
    let mut net = Net::new();
    let a = net.var(1i32);
    let b = net.var(2i32);
    let mapped = net.put((a.clone(), b.clone()).map(|a: &i32, b: &i32| (a + 1, b + 1)));
    let obs = net.put(mapped.update_observer());
    let v1 = net.get(&obs);
    assert_eq!(v1, 1);
    let v2 = net.get(&obs);
    assert_eq!(v2, v1);
    net.set(&a, 10);
    let v3 = net.get(&obs);
    assert_eq!(v3, v1 + 1);
    net.set(&b, 20);
    let v4 = net.get(&obs);
    assert_eq!(v4, v3 + 1);
    let v5 = net.get(&obs);
    assert_eq!(v5, v4);
}

#[test]
fn look() {
    let mut net = Net::new();
    let a = net.var(1i32);
    let x = net.put(a.map(|x: &i32| x + 1));
    assert_eq!(net.get(&x), 2);
    net.set(&a, 2);
    assert_eq!(net.get(&x), 3);
}

#[test]
fn test_mut() {
    let mut net = Net::new();
    let a = net.var(1i32);
    let aw = net.put(
        a.map_mut(
            0i32,
            |out: &mut i32, x: &i32| {
                if *x > 5 {
                    *out = 2;
                    true
                } else {
                    *out = 1;
                    false
                }
            },
        ),
    );
    let b = net.var(2i32);
    let aw2 = net.put((b.clone(), aw.clone()).map(|_bv: &i32, av: &i32| *av));
    let aw_solo = net.put(aw.map(|av: &i32| *av));
    assert_eq!(net.get(&aw), 1);
    assert_eq!(net.get(&aw2), 1);
    assert_eq!(net.get(&aw_solo), 1);

    net.set(&a, 10);
    assert_eq!(net.get(&aw), 2);
    assert_eq!(net.get(&aw_solo), 2);
    assert_eq!(net.get(&aw2), 2);

    net.set(&a, 2);
    assert_eq!(net.get(&aw_solo), 2);
    assert_eq!(net.get(&aw2), 2);
}

#[test]
fn test_var_eq() {
    let mut net = Net::new();
    let a1 = net.put(Constant::new_internal(1i32));
    let a2 = net.put(Constant::new_internal(2i32));
    let one = net.put(a1.map(|x: &i32| x + 1));
    let two = net.put(a2.map(|x: &i32| x + 1));
    let aa = net.var(a1.clone());
    let aw = net.put(aa.then_by(|an: &Anchor<i32>| an.clone()));
    let first = a1.clone();
    let aw2 = net.put(aa.map(move |an: &Anchor<i32>| if *an == first { one.clone() } else { two.clone() }));
    let aw3 = net.put(aa.then_by(|an: &Anchor<i32>| an.clone()));
    assert_eq!(net.get(&aw), 1);
    let x = net.get(&aw2);
    assert_eq!(net.get(&x), 2);
    assert_eq!(net.get(&aw3), 1);
    net.set(&aa, a2);
    assert_eq!(net.get(&aw), 2);
    let x = net.get(&aw2);
    assert_eq!(net.get(&x), 3);
    assert_eq!(net.get(&aw3), 2);
}

#[test]
fn var_either_anchor_test_var_either2() {
    let mut net = Net::new();
    let a1 = net.voa(VarEA::new(anchors::expert::var_either_anchor::ValOrAnchor::EVal(1i32)).inner);
    let aw = net.put(a1.map(|x: &i32| x + 1));
    assert_eq!(net.get(&aw), 2)
}

#[test]
fn var_either_anchor_test_var_either() {
    let mut net = Net::new();
    let aw = net.voa(VarEA::new(anchors::expert::var_either_anchor::ValOrAnchor::EVal(1i32)).inner);
    assert_eq!(net.get(&aw), 1);
    let c1 = net.put(Constant::new_internal(2i32));
    net.set_voa(&aw, anchors::expert::var_either_anchor::ValOrAnchor::EAnchor(c1).into_voa());
    assert_eq!(net.get(&aw), 2);
    let c2 = net.var(3i32);
    net.set_voa(&aw, anchors::expert::var_either_anchor::ValOrAnchor::EAnchor(c2.clone()).into_voa());
    assert_eq!(net.get(&aw), 3);
    net.set(&c2, 4);
    assert_eq!(net.get(&aw), 4);
    net.set_voa(&aw, anchors::expert::var_either_anchor::ValOrAnchor::EVal(5).into_voa());
    assert_eq!(net.get(&aw), 5);
    assert_eq!(net.get(&aw), 5);
}

#[test]
fn var_val_or_anchor_test_var_either2() {
    let mut net = Net::new();
    let a1 = net.voa(VarVOA::new(ValOrAnchor::Val(1i32)));
    let aw = net.put(a1.map(|x: &i32| x + 1));
    assert_eq!(net.get(&aw), 2)
}

#[test]
fn var_val_or_anchor_test_var_either() {
    let mut net = Net::new();
    let _xx: ValOrAnchor<i32> = 2.into();
    let xx = net.var(2i32);
    let _xx: ValOrAnchor<i32> = xx.into();
    let aw = net.voa(VarVOA::new(ValOrAnchor::Val(1i32)));
    assert_eq!(net.get(&aw), 1);
    let c1 = net.put(Constant::new_internal(2i32));
    net.set_voa(&aw, c1.into());
    assert_eq!(net.get(&aw), 2);
    let c2 = net.var(3i32);
    net.set_voa(&aw, c2.clone().into());
    assert_eq!(net.get(&aw), 3);
    net.set(&c2, 4);
    assert_eq!(net.get(&aw), 4);
    net.set_voa(&aw, 5.into());
    assert_eq!(net.get(&aw), 5);
    assert_eq!(net.get(&aw), 5);
}

#[test]
fn a_variable_that_is_read_shows_what_was_set_last() {
    let mut net = Net::new();
    let a = net.var(1usize);
    let doubled = net.put(a.map(|x: &usize| x * 2));
    let sum = net.put((a.clone(), doubled.clone()).map(|x: &usize, y: &usize| x + y));
    for n in [5usize, 7, 7, 0, 100] {
        net.set(&a, 999);
        net.set(&a, n);
        assert_eq!(net.get(&sum), 3 * n);
        assert_eq!(net.get(&a), n);
        assert_eq!(net.get(&doubled), 2 * n);
    }
}

#[test]
fn only_what_is_needed_is_calculated() {
    let calls = Rc::new(Cell::new(0usize));
    let counted = calls.clone();
    let mut net = Net::new();
    let a = net.var(1usize);
    let b = net.var(10usize);
    let heavy = net.put(
        a.map(
            move |x: &usize| {
                counted.set(counted.get() + 1);
                *x
            },
        ),
    );
    let sum = net.put((heavy.clone(), b.clone()).map(|x: &usize, y: &usize| x + y));
    assert_eq!(calls.get(), 0);
    assert_eq!(net.get(&sum), 11);
    assert_eq!(calls.get(), 1);
    net.set(&b, 20);
    assert_eq!(net.get(&sum), 21);
    assert_eq!(calls.get(), 1);
    net.set(&a, 2);
    assert_eq!(net.get(&sum), 22);
    assert_eq!(calls.get(), 2);
}

#[test]
fn what_is_observed_makes_what_it_depends_on_necessary() {
    let mut net = Net::new();
    let a = net.var(1usize);
    let b = net.put(a.map(|x: &usize| x + 1));
    let (a, b): (Anchor<Val>, Anchor<Val>) = (Anchor::new_from_expert(a.token()), Anchor::new_from_expert(b.token()));
    assert_eq!(net.engine.check_observed(&b), ObservedState::Unnecessary);
    net.engine.mark_observed(&b);
    assert_eq!(net.engine.check_observed(&b), ObservedState::Observed);
    assert!(net.engine.stabilize().is_ok());
    assert_eq!(net.engine.check_observed(&a), ObservedState::Necessary);
    assert!(matches!(net.engine.peek_value(&b), Some(Val::Num(2))));
    net.engine.mark_unobserved(&b);
    assert_eq!(net.engine.check_observed(&b), ObservedState::Unnecessary);
    assert_eq!(net.engine.check_observed(&a), ObservedState::Unnecessary);
}

#[test]
fn what_was_read_once_is_kept_up_to_date() {
    let mut net = Net::new();
    let a = net.var(1usize);
    let b = net.put(a.map(|x: &usize| x + 1));
    let whole: Anchor<Val> = Anchor::new_from_expert(b.token());
    assert!(net.engine.peek_value(&whole).is_none());
    assert!(net.engine.stabilize().is_ok());
    assert!(net.engine.peek_value(&whole).is_none());
    assert_eq!(net.get(&b), 2);
    assert!(matches!(net.engine.peek_value(&whole), Some(Val::Num(2))));
    net.set(&a, 5);
    assert!(net.engine.stabilize().is_ok());
    assert!(matches!(net.engine.peek_value(&whole), Some(Val::Num(6))));
    assert_eq!(net.engine.get_with(&whole, |v: &Val| matches!(v, Val::Num(6))), Ok(true));
}

#[test]
fn a_removed_anchor_cannot_be_read() {
    let mut net = Net::new();
    let a = net.var(1usize);
    let b = net.var(2usize);
    assert!(net.engine.is_token_alive(a.token()));
    assert_eq!(net.engine.metrics_snapshot(4096).active_nodes, 2);
    net.engine.remove(a.token());
    assert!(!net.engine.is_token_alive(a.token()));
    assert!(net.engine.anchor(a.token()).is_none());
    assert_eq!(net.try_get(&a), Err(EngineError::Deleted { token: a.token() }));
    let whole: Anchor<Val> = Anchor::new_from_expert(a.token());
    assert!(net.engine.get_with(&whole, |_v: &Val| 0usize) == Err(EngineError::Deleted { token: a.token() }));
    assert_eq!(net.get(&b), 2);
    let metrics = net.engine.metrics_snapshot(4096);
    assert_eq!(metrics.active_nodes, 1);
    assert_eq!(metrics.rss_bytes, 4096);
    let audit = net.engine.token_audit_snapshot();
    assert_eq!(audit.next_token, 2);
    assert_eq!(audit.last_deleted_token, Some(a.token() as u64));
    let c = net.var(3usize);
    assert_eq!(c.token(), 2);
}

#[test]
fn an_anchor_without_an_output_cannot_do_without_one_that_is_gone() {
    let mut net = Net::new();
    let a = net.var(1usize);
    let b = net.put(a.map(|x: &usize| x + 1));
    net.engine.remove(a.token());
    assert_eq!(net.try_get(&b), Err(EngineError::InvalidToken { token: b.token() }));
}

#[test]
fn an_anchor_with_an_output_keeps_it_when_one_is_gone() {
    let mut net = Net::new();
    let a = net.var(1usize);
    let c = net.var(10usize);
    let b = net.put((a.clone(), c.clone()).map(|x: &usize, y: &usize| x + y));
    assert_eq!(net.get(&b), 11);
    net.engine.remove(a.token());
    net.set(&c, 20);
    assert_eq!(net.get(&b), 11);
}

/// Answers that it waits, and asks for nothing.
struct Idle;

impl AnyInner for Idle {
    fn dirty(&mut self, _edge: usize) {
    }

    fn poll_updated(&mut self, _ctx: &mut Ctx) -> Poll {
        Poll::Pending
    }

    fn output(&self) -> OutputRef<'_, Val> {
        unreachable!()
    }

    fn is_settable(&self) -> bool {
        false
    }

    fn set_value(&mut self, _val: Box<dyn Any>) -> bool {
        unreachable!()
    }
}

#[test]
fn an_anchor_that_waits_for_nothing_is_an_error() {
    let mut net = Net::new();
    let idle = net.engine.mount(Boxed(Box::new(Idle)));
    assert!(net.engine.get(&idle).err() == Some(EngineError::UnexpectedPending { token: idle.token() }));
}

/// Has an output once, and from then on answers that it waits, though it asks for nothing.
struct Once {
    out: Val,
    polls: usize,
}

impl AnyInner for Once {
    fn dirty(&mut self, _edge: usize) {
    }

    fn poll_updated(&mut self, _ctx: &mut Ctx) -> Poll {
        self.polls += 1;
        if self.polls == 1 {
            Poll::Updated
        } else {
            Poll::Pending
        }
    }

    fn output(&self) -> OutputRef<'_, Val> {
        OutputRef::Own(&self.out)
    }

    fn is_settable(&self) -> bool {
        false
    }

    fn set_value(&mut self, _val: Box<dyn Any>) -> bool {
        unreachable!()
    }
}

#[test]
fn an_anchor_that_waits_for_nothing_keeps_its_output() {
    let mut net = Net::new();
    let once = net.engine.mount(Boxed(Box::new(Once { out: Val::Num(7), polls: 0 })));
    let seen: Anchor<usize> = Anchor::new_from_expert(once.token());
    assert_eq!(net.get(&seen), 7);
    let before = net.engine.ctx.graph.nodes[once.token()].last_update;
    net.engine.ctx.dirty_marks.push(once.token());
    assert_eq!(net.get(&seen), 7);
    let node = &net.engine.ctx.graph.nodes[once.token()];
    assert_eq!(node.last_ready, Some(net.engine.ctx.generation));
    assert_eq!(node.last_update, before);
    assert!(!node.anchor_locked);
    assert!(!net.engine.has_pending_work());
}

/// Asks to be polled again, some times over.
struct Restless {
    out: Val,
    token: usize,
    left: usize,
    polls: Rc<Cell<usize>>,
}

impl AnyInner for Restless {
    fn dirty(&mut self, _edge: usize) {
    }

    fn poll_updated(&mut self, ctx: &mut Ctx) -> Poll {
        self.polls.set(self.polls.get() + 1);
        if self.left > 0 {
            self.left -= 1;
            ctx.dirty_marks.push(self.token);
        }
        Poll::Updated
    }

    fn output(&self) -> OutputRef<'_, Val> {
        OutputRef::Own(&self.out)
    }

    fn is_settable(&self) -> bool {
        false
    }

    fn set_value(&mut self, _val: Box<dyn Any>) -> bool {
        unreachable!()
    }
}

#[test]
fn a_stabilization_goes_on_while_nodes_ask_for_it() {
    for (left, polls, busy) in [(0usize, 1usize, false), (3, 4, false), (8, 9, false), (20, 9, true)] {
        let mut net = Net::new();
        let counted = Rc::new(Cell::new(0usize));
        let token = net.next_token();
        let restless = Restless { out: Val::Num(1), token, left, polls: counted.clone() };
        let anchor = net.engine.mount(Boxed(Box::new(restless)));
        net.engine.mark_observed(&anchor);
        assert!(net.engine.stabilize().is_ok());
        assert_eq!(counted.get(), polls);
        assert_eq!(net.engine.has_pending_work(), busy);
    }
}

#[test]
fn a_variable_shows_what_was_set_after_an_error() {
    let mut net = Net::new();
    let a = net.var(1usize);
    let b = net.put(a.map(|x: &usize| x + 1));
    let c = net.var(5usize);
    net.engine.remove(a.token());
    assert_eq!(net.try_get(&b), Err(EngineError::InvalidToken { token: b.token() }));
    net.set(&c, 6usize);
    assert_eq!(net.get(&c), 6);
    net.set(&c, 7usize);
    assert_eq!(net.get(&c), 7);
}

#[test]
fn a_clone_of_the_choice_follows_a_switch() {
    let mut net = Net::new();
    let first = net.var(1usize);
    let second = net.var(2usize);
    let which = net.var(0usize);
    let (one, other) = (first.clone(), second.clone());
    let choice = net.put(which.then_clone(0usize, move |w: &usize| if *w == 0 { one.clone() } else { other.clone() }));
    assert_eq!(net.get(&second), 2);
    assert_eq!(net.get(&choice), 1);
    net.set(&which, 1usize);
    assert_eq!(net.get(&choice), 2);
    net.set(&second, 3usize);
    assert_eq!(net.get(&choice), 3);
}

#[test]
fn an_anchor_that_would_depend_on_itself_keeps_its_output() {
    let mut net = Net::new();
    let a = net.voa(VarVOA::new(ValOrAnchor::Val(1usize)));
    let b = net.put(a.map(|x: &usize| x + 1));
    assert_eq!(net.get(&b), 2);
    net.set_voa(&a, ValOrAnchor::Anchor(b.clone()));
    assert_eq!(net.get(&b), 2);
}

#[test]
fn an_anchor_that_depends_on_itself_from_the_start_has_no_output() {
    let mut net = Net::new();
    let a = net.voa(VarVOA::new(ValOrAnchor::Anchor(Anchor::<usize>::new_from_expert(1))));
    let b = net.put(a.map(|x: &usize| x + 1));
    assert_eq!(net.try_get(&b), Err(EngineError::InvalidToken { token: b.token() }));
    assert_eq!(net.try_get(&a), Err(EngineError::NotReady { token: a.token() }));
}

#[test]
fn recalculations_are_limited_on_demand() {
    let mut net = Net::new();
    let a = net.var(1usize);
    let b = net.put(a.map(|x: &usize| x + 1));
    let c = net.put(b.map(|x: &usize| x + 1));
    net.engine.spin_limit = 1;
    assert_eq!(net.try_get(&c), Err(EngineError::Spinning));
    net.engine.spin_limit = 0;
    assert_eq!(net.get(&c), 3);
}

#[test]
fn a_request_that_is_taken_back_leaves_no_necessity() {
    let mut net = Net::new();
    let a = net.var(1usize);
    let b = net.var(2usize);
    let handle: Anchor<Val> = Anchor::new_from_expert(b.token());
    net.engine.mark_observed(&handle);
    assert_eq!(net.get(&b), 2);
    net.engine.ctx.node = b.token();
    assert_eq!(net.engine.ctx.request_node(a.token(), true), Poll::PendingDefer);
    assert_eq!(net.engine.ctx.graph.nodes[a.token()].necessary_count, 1);
    assert_eq!(net.engine.ctx.graph.nodes[b.token()].necessary_children, vec![a.token()]);
    assert_eq!(net.engine.ctx.graph.nodes[a.token()].clean_parents, vec![b.token()]);
    net.engine.ctx.unrequest(a.token());
    assert_eq!(net.engine.ctx.graph.nodes[a.token()].necessary_count, 0);
    assert!(net.engine.ctx.graph.nodes[b.token()].necessary_children.is_empty());
}

#[test]
fn what_was_put_down_is_asked_for_again() {
    let mut net = Net::new();
    let a = net.var(1usize);
    let b = net.var(2usize);
    assert_eq!(net.get(&b), 2);
    net.engine.ctx.node = b.token();
    assert_eq!(net.engine.ctx.request_node(a.token(), false), Poll::PendingDefer);
    net.engine.ctx.node = usize::MAX;
    net.engine.ctx.process_pending_requests();
    let stats = net.engine.pending_stats_snapshot();
    assert_eq!((stats.total_drained, stats.last_drain_drained, stats.last_drain_remaining), (1, 1, 1));
    assert!(net.engine.stabilize().is_ok());
    let stats = net.engine.pending_stats_snapshot();
    assert_eq!((stats.total_drained, stats.last_drain_drained, stats.last_drain_remaining), (2, 1, 0));
    assert!(!net.engine.has_pending_work());
}

#[test]
fn a_variable_that_was_never_polled_is_marked_when_it_is_set() {
    let mut net = Net::new();
    let a = net.var(1usize);
    let b = net.voa(VarVOA::new(ValOrAnchor::Val(1usize)));
    assert!(!net.engine.has_pending_work());
    net.set_voa(&b, ValOrAnchor::Val(2usize));
    assert!(net.engine.has_pending_work());
    assert_eq!(net.get(&b), 2);
    assert!(!net.engine.has_pending_work());
    net.set(&a, 3usize);
    assert!(net.engine.has_pending_work());
    assert_eq!(net.get(&a), 3);
}

#[test]
fn a_reduction_runs_remove_when_the_dictionary_becomes_empty() {
    let mut net = Net::new();
    let mut dict = Dict::new();
    dict.insert(key('a'), 1);
    let d = net.var(dict);
    let r = net.put(
        d.reduction(
            0usize,
            |out: usize, _k: &usize, v: &usize| (out + v, true),
            |out: usize, old: (&usize, &usize), _k: &usize, v: &usize| (out + v - old.1, true),
            |out: usize, _k: &usize, v: &usize| (out - v, true),
        ),
    );
    assert_eq!(net.get(&r), 1);
    net.set(&d, Dict::new());
    assert_eq!(net.get(&r), 0);
}

#[test]
fn what_is_followed_from_the_start_again_is_a_change() {
    let mut net = Net::new();
    let mut dict = Dict::new();
    dict.insert(key('b'), 3);
    let d = net.var(dict);
    let v = net.var(key('c'));
    let r = net.put(
        d.filter_map_with_anchor(8, &v, |a: &usize, k: &usize, x: &usize| if k != a { Some(*x) } else { None }),
    );
    let sum = net.put(r.map(|m: &Dict| m.values().sum::<usize>()));
    assert_eq!(net.get(&sum), 3);
    net.set(&v, key('b'));
    assert_eq!(net.get(&sum), 0);
    assert!(net.get(&r).is_empty());
}

#[test]
fn what_derives_from_a_choice_follows_a_switch() {
    let mut net = Net::new();
    let first = net.var(1usize);
    let second = net.var(2usize);
    let which = net.var(0usize);
    let (one, other) = (first.clone(), second.clone());
    let choice = net.put(which.then_by(move |w: &usize| if *w == 0 { one.clone() } else { other.clone() }));
    let (one, other) = (first.clone(), second.clone());
    let dedupe = net.put(which.then_dedupe(move |w: &usize| if *w == 0 { one.clone() } else { other.clone() }));
    let plus = net.put(choice.map(|x: &usize| x + 10));
    let more = net.put(dedupe.map(|x: &usize| x + 20));
    assert_eq!(net.get(&second), 2);
    assert_eq!(net.get(&plus), 11);
    assert_eq!(net.get(&more), 21);
    assert_eq!(net.get(&second), 2);
    net.set(&which, 1usize);
    assert_eq!(net.get(&plus), 12);
    assert_eq!(net.get(&more), 22);
}

#[test]
fn a_locked_anchor_is_an_error_where_locks_are_strict() {
    let mut net = Net::new();
    let a = net.var(1usize);
    net.engine.ctx.graph.nodes[a.token()].anchor_locked = true;
    net.engine.lock_strict = true;
    assert_eq!(net.try_get(&a), Err(EngineError::NotReady { token: a.token() }));
    net.engine.ctx.node = a.token();
    assert_eq!(net.engine.ctx.recalculate(a.token(), true), Err(EngineError::AnchorLocked { token: a.token() }));
    assert_eq!(net.engine.ctx.recalculate(a.token(), false), Ok(true));
}

#[test]
fn a_graph_can_be_drawn() {
    let mut net = Net::new();
    let a = net.var(1usize);
    let b = net.put(a.map(|x: &usize| x + 1));
    let infos = vec![
        AnchorDebugInfo {
            location: Some((String::from("VarAnchor"), String::from("src/main.rs:3:9"))),
            type_info: String::from("usize"),
        },
        AnchorDebugInfo { location: None, type_info: String::from("map \"plus one\"") },
    ];
    assert_eq!(infos[0].to_display(), "src/main.rs:3:9 (VarAnchor)");
    assert_eq!(infos[1]._to_string(), "map \"plus one\"");
    let whole: Anchor<Val> = Anchor::new_from_expert(b.token());
    net.engine.mark_observed(&whole);
    assert_eq!(net.get(&b), 2);
    let head = "digraph Anchors {\n  rankdir=LR;\n  node [shape=box, fontsize=10];\n";
    let audit = "  labelloc=\"t\";\n  label=\"token_next=2 | last_deleted=None\";\n";
    let mapped = "  \"1\" [label=\"map \\\"plus one\\\"\\nslot_id=1\\ntoken=1\\nrecalc=Ready\"];\n";
    let var = "  \"0\" [label=\"src/main.rs:3:9\nVarAnchor\\nslot_id=0\\ntoken=0\\nrecalc=Ready\"];\n";
    let named = "  \"0\" [label=\"a\\nslot_id=0\\ntoken=0\\nrecalc=Ready\"];\n";
    let edges = "  \"0\" -> \"1\" [style=dashed];\n  \"0\" -> \"1\" [style=solid];\n}\n";
    assert_eq!(
        net.engine.export_dot_from_tokens(&vec![b.token()], &infos),
        [head, audit, mapped, var, edges].concat()
    );
    let mut names: HashMap<usize, String> = HashMap::new();
    names.insert(0, String::from("a"));
    assert_eq!(
        net.engine.export_dot_from_tokens_with_names(&vec![b.token(), b.token()], &infos, &names),
        [head, mapped, named, edges].concat()
    );
    let state = net.engine.debug_state(&infos);
    let lines: Vec<&str> = state.split('\n').collect();
    assert_eq!(lines.len(), 3);
    assert_eq!(lines[0].trim_start(), "src/main.rs:3:9 (VarAnchor)  necessary     --     Ready        ");
    assert_eq!(lines[1].trim_start(), "map \"plus one\"     --      observed  Ready        ");
    assert_eq!(lines[0].len(), 80 + 36);
    assert_eq!(lines[1].len(), 80 + 36);
    assert_eq!(
        net.engine.describe_tokens(&vec![1, 0, 7], &infos),
        vec![String::from("map \"plus one\""), String::from("src/main.rs:3:9 (VarAnchor)"), String::from("#7")]
    );
}

#[test]
fn a_dictionary_can_be_folded() {
    let mut net = Net::new();
    let mut dict = Dict::new();
    dict.insert(1, 10);
    dict.insert(2, 20);
    let a = net.var(dict.clone());
    let by = net.var(15usize);
    let chosen = net.put(a.filter_map(4, |k: &usize, v: &usize| if *k % 2 == 0 { Some(v + k) } else { None }));
    let above = net.put(a.filter_with_anchor(4, &by, |t: &usize, _k: &usize, v: &usize| v > t));
    let shifted = net.put(a.map_with_anchor(4, &by, |t: &usize, _k: &usize, v: &usize| v + t));
    let seen = net.put(a.increment_reduction(0usize, |out: usize, _k: &usize, v: &usize| out + v));
    let sum = net.put(
        a.reduction(
            0usize,
            |out: usize, _k: &usize, v: &usize| (out + v, true),
            |out: usize, old: (&usize, &usize), _k: &usize, v: &usize| (out - old.1 + v, true),
            |out: usize, _k: &usize, v: &usize| (out - v, true),
        ),
    );
    let steps = net.put(
        a.unordered_fold(
            0usize,
            |out: usize, change: DictChange, _len: usize| match change {
                DictChange::Add { .. } => (out + 1, true),
                DictChange::Update { .. } => (out + 100, true),
                DictChange::Remove { .. } => (out + 10000, true),
            },
        ),
    );
    let largest = net.put(
        a.unordered_fold_with_anchor(
            &by,
            0usize,
            |t: &usize, out: usize, change: DictChange, _len: usize| match change {
                DictChange::Add { value, .. } => if value + t > out {
                    (value + t, true)
                } else {
                    (out, false)
                },
                _ => (out, false),
            },
        ),
    );
    assert_eq!(net.get(&chosen), Dict::from(vec![(2usize, 22usize)]));
    assert_eq!(net.get(&above), Dict::from(vec![(2usize, 20usize)]));
    assert_eq!(net.get(&shifted), Dict::from(vec![(1usize, 25usize), (2, 35)]));
    assert_eq!(net.get(&seen), 30);
    assert_eq!(net.get(&sum), 30);
    assert_eq!(net.get(&steps), 2);
    assert_eq!(net.get(&largest), 35);

    dict.insert(2, 21);
    dict.insert(4, 40);
    dict.remove(&1);
    net.set(&a, dict.clone());
    assert_eq!(net.get(&chosen), Dict::from(vec![(2usize, 23usize), (4, 44)]));
    assert_eq!(net.get(&above), Dict::from(vec![(2usize, 21usize), (4, 40)]));
    assert_eq!(net.get(&shifted), Dict::from(vec![(2usize, 36usize), (4, 55)]));
    assert_eq!(net.get(&seen), 91);
    assert_eq!(net.get(&sum), 61);
    assert_eq!(net.get(&steps), 10103);
    assert_eq!(net.get(&largest), 55);

    net.set(&by, 30);
    assert_eq!(net.get(&above), Dict::from(vec![(4usize, 40usize)]));
    assert_eq!(net.get(&shifted), Dict::from(vec![(2usize, 51usize), (4, 70)]));
    assert_eq!(net.get(&largest), 70);
}

#[test]
fn a_set_can_be_folded() {
    let mut net = Net::new();
    let mut set: OrdSet<usize> = OrdSet::from(vec![1usize, 2, 3]);
    let a = net.var(set.clone());
    let even = net.put(a.filter_map(|k: &usize| k % 2 == 0));
    let seen = net.put(a.increment_reduction(0usize, |out: usize, k: &usize| out + k));
    let sum = net.put(
        a.reduction(
            0usize,
            |out: usize, k: &usize| (out + k, true),
            |out: usize, _old: &usize, _new: &usize| (out, false),
            |out: usize, k: &usize| (out - k, true),
        ),
    );
    let steps = net.put(
        a.unordered_fold(
            0usize,
            |out: usize, change: SetChange, _len: usize| match change {
                SetChange::Add { .. } => (out + 1, true),
                SetChange::Update { .. } => (out, false),
                SetChange::Remove { .. } => (out + 100, true),
            },
        ),
    );
    assert_eq!(net.get(&even), OrdSet::from(vec![2usize]));
    assert_eq!(net.get(&seen), 6);
    assert_eq!(net.get(&sum), 6);
    assert_eq!(net.get(&steps), 3);
    set.remove(&2);
    set.insert(8);
    net.set(&a, set);
    assert_eq!(net.get(&even), OrdSet::from(vec![8usize]));
    assert_eq!(net.get(&seen), 14);
    assert_eq!(net.get(&sum), 12);
    assert_eq!(net.get(&steps), 104);
}

#[test]
fn the_values_of_a_dictionary_can_be_collected() {
    let mut net = Net::new();
    let a = net.var(1usize);
    let mut dict = VoaDict::new();
    dict.insert(9, (true, a.token()));
    dict.insert(3, (false, 30));
    let values = net.put(values_of(&dict));
    assert_eq!(net.get(&values), Vector::from(vec![30usize, 1]));
    net.set(&a, 4);
    assert_eq!(net.get(&values), Vector::from(vec![30usize, 4]));
}

#[test]
fn a_keyed_collection_follows_its_order() {
    let mut net = Net::new();
    let items: Vec<Anchor<usize>> = (0..4usize).map(|k| net.var(10 * k)).collect();
    let order = net.var(Vector::from(vec![2usize, 0]));
    let made = items.clone();
    let collect: DynamicKeyedVectorCollect<Vector<usize>, usize, _> =
        DynamicKeyedVectorCollect::new_to_anchor(order.clone(), move |key: &usize| made[*key].clone());
    let nums = net.put(collect);
    assert_eq!(net.get(&nums), Vector::from(vec![20usize, 0]));
    net.set(&order, Vector::from(vec![3usize, 2, 1]));
    assert_eq!(net.get(&nums), Vector::from(vec![30usize, 20, 10]));
    net.set(&items[2], 21);
    assert_eq!(net.get(&nums), Vector::from(vec![30usize, 21, 10]));
    net.engine.remove(items[3].token());
    net.set(&order, Vector::from(vec![3usize, 1]));
    assert_eq!(net.get(&nums), Vector::from(vec![10usize]));
}

#[test]
fn a_key_that_is_lost_stays_lost() {
    let mut net = Net::new();
    let items: Vec<Anchor<usize>> = (0..3usize).map(|k| net.var(10 * k)).collect();
    let order = net.var(Vector::from(vec![2usize, 1, 0]));
    let made = items.clone();
    let collect: DynamicKeyedVectorCollect<Vector<usize>, usize, _> =
        DynamicKeyedVectorCollect::new_to_anchor(order.clone(), move |key: &usize| made[*key].clone());
    let nums = net.put(collect);
    assert_eq!(net.get(&nums), Vector::from(vec![20usize, 10, 0]));
    net.engine.remove(items[1].token());
    net.set(&order, Vector::from(vec![1usize, 2, 0]));
    assert_eq!(net.get(&nums), Vector::from(vec![20usize, 0]));
    net.set(&order, Vector::from(vec![0usize, 1]));
    assert_eq!(net.get(&nums), Vector::from(vec![0usize]));
    net.set(&items[0], 5);
    assert_eq!(net.get(&nums), Vector::from(vec![5usize]));
}

#[test]
fn a_drawing_leaves_out_what_cannot_be_met() {
    let mut net = Net::new();
    let a = net.var(1usize);
    let b = net.put(a.map(|x: &usize| x + 1));
    let apart = net.var(3usize);
    assert_eq!(net.get(&b), 2);
    assert_eq!(net.get(&apart), 3);
    let once = net.engine.export_dot_from_tokens(&vec![a.token()], &vec![]);
    let twice = net.engine.export_dot_from_tokens(&vec![a.token(), a.token(), a.token()], &vec![]);
    assert_eq!(once, twice);
    assert!(once.contains("\"1\" ["));
    assert!(!once.contains("\"2\" ["));
}

#[test]
fn observed_anchors_are_right_after_a_stabilization() {
    let mut net = Net::new();
    let a = net.var(1usize);
    let b = net.put(a.map(|x: &usize| x + 1));
    let handle: Anchor<Val> = Anchor::new_from_expert(b.token());
    net.engine.mark_observed(&handle);
    net.set(&a, 5usize);
    assert!(net.engine.stabilize().is_ok());
    assert!(!net.engine.has_pending_work());
    match net.engine.peek_value(&handle) {
        Some(Val::Num(n)) => assert_eq!(n, 6),
        _ => panic!("an observed anchor can be read"),
    }
}

#[test]
fn a_choice_is_made_again_when_its_input_changes() {
    let mut net = Net::new();
    let which = net.var(0usize);
    let x = net.var(1i32);
    let y = net.var(2i32);
    let (x1, y1, x2, y2) = (x.clone(), y.clone(), x.clone(), y.clone());
    let chosen = net.put(which.then_dedupe(move |k: &usize| if *k == 0 { x1.clone() } else { y1.clone() }));
    let cloned = net.put(which.then_clone(-1i32, move |k: &usize| if *k == 0 { x2.clone() } else { y2.clone() }));
    assert_eq!(net.get(&chosen), 1);
    assert_eq!(net.get(&cloned), 1);
    net.set(&which, 1);
    assert_eq!(net.get(&chosen), 2);
    assert_eq!(net.get(&cloned), 2);
    net.set(&y, 5);
    assert_eq!(net.get(&chosen), 5);
    assert_eq!(net.get(&cloned), 5);
    net.set(&x, 7);
    assert_eq!(net.get(&chosen), 5);
    assert_eq!(net.get(&cloned), 5);
}

#[test]
fn a_debounced_anchor_reports_changes_of_its_value() {
    let calls = Rc::new(Cell::new(0usize));
    let counted = calls.clone();
    let mut net = Net::new();
    let a = net.var(1i32);
    let quiet = net.put(a.debounce());
    let b = net.put(
        quiet.map(
            move |x: &i32| {
                counted.set(counted.get() + 1);
                *x
            },
        ),
    );
    assert_eq!(net.get(&b), 1);
    net.set(&a, 1);
    assert_eq!(net.get(&b), 1);
    assert_eq!(calls.get(), 1);
    net.set(&a, 2);
    assert_eq!(net.get(&b), 2);
    assert_eq!(calls.get(), 2);
}

#[test]
fn the_height_of_a_graph_is_limited() {
    let mut net = Net { engine: Engine::new_with_max_height(256) };
    let mut top = net.var(0usize);
    for _ in 0..100 {
        top = net.put(top.map(|x: &usize| x + 1));
    }
    assert_eq!(net.get(&top), 100);
    assert!(!net.engine.has_pending_work());
    let stats = net.engine.pending_stats_snapshot();
    assert_eq!(stats.total_enqueued_raw, 100);
    assert_eq!(stats.total_drained, 100);
}

#[test]
fn two_constants_are_added() {
    let mut net = Net::new();
    let a = net.put(Constant::new_internal(1usize));
    let b = net.put(Constant::new_internal(2usize));
    let res = net.put((a, b).map(|a_val: &usize, b_val: &usize| -> usize { *a_val + *b_val }));
    assert_eq!(3, net.get(&res));
}

#[test]
fn only_the_anchor_that_is_chosen_is_calculated() {
    let calls = Rc::new(Cell::new(0usize));
    let counted = calls.clone();
    let mut net = Net::new();
    let decision = net.put(Constant::new_internal(1usize));
    let num = net.put(Constant::new_internal(1usize));
    let a = net.put(num.map(|num: &usize| *num + 1));
    let b = net.put(
        num.map(
            move |num: &usize| {
                counted.set(counted.get() + 1);
                *num + 2
            },
        ),
    );
    let res = net.put(decision.then_by(move |decision: &usize| if *decision == 1 { a.clone() } else { b.clone() }));
    assert_eq!(2, net.get(&res));
    assert_eq!(calls.get(), 0);
}

#[test]
fn small_changes_are_cut_off() {
    let mut net = Net::new();
    let num = net.var(1i32);
    let mut old_num_opt: Option<i32> = None;
    let cutoff = net.put(
        num.cutoff(
            move |num: &i32| {
                if let Some(old_num) = old_num_opt {
                    if (old_num - *num).abs() < 10 {
                        return false;
                    }
                }
                old_num_opt = Some(*num);
                true
            },
        ),
    );
    let res = net.put(cutoff.map(|cutoff: &i32| *cutoff + 1));
    assert_eq!(2, net.get(&res));
    net.set(&num, 5);
    assert_eq!(2, net.get(&res));
    net.set(&num, 11);
    assert_eq!(12, net.get(&res));
}

#[test]
fn the_first_calculation_is_not_cut_off() {
    let mut net = Net::new();
    let num = net.var(1i32);
    let cutoff = net.put(num.cutoff(|_num: &i32| false));
    let res = net.put(cutoff.map(|cutoff: &i32| *cutoff + 1));
    assert_eq!(2, net.get(&res));
    net.set(&num, 5);
    assert_eq!(2, net.get(&res));
}

#[test]
fn a_pair_is_split_into_its_parts() {
    let mut net = Net::new();
    let pair = net.var((1i32, 20i32));
    let (first, second) = pair.split();
    let first = net.put(first);
    let second = net.put(second);
    assert_eq!(net.get(&first), 1);
    assert_eq!(net.get(&second), 20);
    net.set(&pair, (2, 20));
    assert_eq!(net.get(&first), 2);
    assert_eq!(net.get(&second), 20);
}

type FewKinds = OneOf<VarAnchor<i32>, OneOf<MapAnchor<(Anchor<i32>,), fn(&i32) -> i32, i32>, Cutoff<i32, fn(&i32) -> bool>>>;

#[test]
fn anchors_of_a_few_kinds_make_a_graph() {
    let mut engine: Engine<FewKinds, i32> = Engine::new();
    let a = engine.mount(OneOf::First(VarAnchor::new(3)));
    let double: fn(&i32) -> i32 = |x: &i32| x * 2;
    let b = engine.mount(OneOf::Second(OneOf::First(a.map(double))));
    let even: fn(&i32) -> bool = |x: &i32| x % 4 == 0;
    let c = engine.mount(OneOf::Second(OneOf::Second(b.cutoff(even))));
    assert!(engine.anchor(a.token()).unwrap().is_settable());
    assert!(!engine.anchor(b.token()).unwrap().is_settable());
    assert_eq!(engine.get(&b), Ok(6));
    assert_eq!(engine.get(&c), Ok(6));
    engine.set(a.token(), 10);
    assert_eq!(engine.get(&c), Ok(20));
    assert_eq!(engine.get(&a), Ok(10));
}

#[test]
fn a_former_choice_can_be_removed() {
    let mut net = Net::new();
    let first = net.var(1i32);
    let second = net.var(2i32);
    let pick = net.var(0i32);
    let (a, b) = (first.clone(), second.clone());
    let chosen = net.put(pick.then_by(move |pick: &i32| if *pick == 0 { a.clone() } else { b.clone() }));
    let res = net.put(chosen.map(|v: &i32| *v + 100));
    assert_eq!(net.get(&res), 101);
    net.set(&pick, 1i32);
    assert_eq!(net.get(&res), 102);
    net.engine.remove(first.token());
    net.set(&second, 5i32);
    assert_eq!(net.get(&res), 105);
    assert_eq!(net.get(&chosen), 5);
}

#[test]
fn trouble_stays_where_it_is() {
    let mut net = Net::new();
    let lost = net.var(1i32);
    let broken = net.put(lost.map(|v: &i32| *v + 1));
    let kept = net.var(10i32);
    let held = net.put(kept.cutoff(|_: &i32| false));
    let over_held = net.put(held.map(|v: &i32| *v + 1));
    let fine = net.var(20i32);
    let right = net.put(fine.map(|v: &i32| *v * 2));
    assert_eq!(net.get(&broken), 2);
    assert_eq!(net.get(&over_held), 11);
    assert_eq!(net.get(&right), 40);
    net.engine.remove(lost.token());
    net.set(&kept, 11i32);
    assert_eq!(net.get(&over_held), 11);
    net.set(&fine, 21i32);
    assert_eq!(net.get(&right), 42);
    assert_eq!(net.get(&held), 11);
}

#[test]
fn a_filter_asks_about_changed_entries_only() {
    let mut net = Net::new();
    let mut dict = Dict::new();
    dict.insert(1, 10);
    dict.insert(2, 20);
    let a = net.var(dict.clone());
    let calls = Rc::new(Cell::new(0));
    let counted = calls.clone();
    let b = net.put(a.filter_map(0, move |_: &usize, n: &usize| {
        counted.set(counted.get() + 1);
        if *n > 10 { Some(*n + 1) } else { None }
    }));
    let b_out = net.get(&b);
    assert_eq!(b_out.len(), 1);
    assert_eq!(b_out.get(&2), Some(&21));
    assert_eq!(calls.get(), 2);
    dict.insert(1, 11);
    net.set(&a, dict.clone());
    let b_out = net.get(&b);
    assert_eq!(b_out.get(&1), Some(&12));
    assert_eq!(b_out.get(&2), Some(&21));
    assert_eq!(calls.get(), 3);
    dict.remove(&2);
    net.set(&a, dict.clone());
    let b_out = net.get(&b);
    assert_eq!(b_out.len(), 1);
    assert_eq!(calls.get(), 3);
}

#[test]
fn figures_agree_and_never_fall() {
    let mut net = Net::new();
    let a = net.var(1i32);
    let b = net.put(a.map(|v: &i32| *v + 1));
    let c = net.put(b.map(|v: &i32| *v + 1));
    let mut earlier = net.engine.pending_stats_snapshot();
    for k in 0..5i32 {
        net.set(&a, k);
        assert_eq!(net.get(&c), k + 2);
        let stats = net.engine.pending_stats_snapshot();
        assert_eq!(stats.total_enqueued_raw, stats.total_enqueued_unique + stats.dedup_hits);
        assert!(stats.last_enqueue_len <= stats.max_queue_len);
        assert!(stats.last_drain_drained as u64 <= stats.total_drained);
        assert!(stats.total_enqueued_raw >= earlier.total_enqueued_raw);
        assert!(stats.total_drained >= earlier.total_drained);
        assert!(stats.max_queue_len >= earlier.max_queue_len);
        assert_eq!(stats, net.engine.pending_stats_snapshot());
        earlier = stats;
    }
    assert!(earlier.total_enqueued_raw > 0);
}
