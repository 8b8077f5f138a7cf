use polygon_unionfind::{Clip, Exclude, Include, Negated, Paralleled};

/// A toy collection of numbers standing in for a polygon collection.
#[derive(Clone, Debug, PartialEq, Default)]
struct Bag(Vec<i32>);

impl Include<i32> for Bag {
    type Output = usize;

    fn include_polygon(&mut self, polygon: i32) -> usize {
        self.0.push(polygon);
        self.0.len()
    }
}

impl Exclude<i32> for Bag {
    type Output = usize;

    fn exclude(&mut self, polygon: i32) -> usize {
        let before = self.0.len();
        self.0.retain(|&x| x != polygon);
        before - self.0.len()
    }
}

impl Clip<i32> for Bag {
    type Output = Vec<i32>;

    fn clip(&mut self, polygon: i32) -> Vec<i32> {
        self.0.retain(|&x| x <= polygon);
        self.0.clone()
    }
}

#[test]
fn paralleled_includes_into_every_collection() {
    let mut p = Paralleled::new(Bag(vec![]), vec![Bag(vec![1]), Bag(vec![2, 3])]);
    let (primary, parallels) = p.include_polygon(7);
    assert_eq!(primary, 1);
    assert_eq!(parallels, vec![2, 3]);
    assert_eq!(p.primary(), &Bag(vec![7]));
    assert_eq!(p.parallels(), &vec![Bag(vec![1, 7]), Bag(vec![2, 3, 7])]);
}

#[test]
fn paralleled_excludes_from_every_collection() {
    let mut p = Paralleled::new(Bag(vec![4, 4]), vec![Bag(vec![4]), Bag(vec![5])]);
    let (primary, parallels) = p.exclude(4);
    assert_eq!(primary, 2);
    assert_eq!(parallels, vec![1, 0]);
    assert_eq!(p.primary(), &Bag(vec![]));
    assert_eq!(p.parallels(), &vec![Bag(vec![]), Bag(vec![5])]);
}

#[test]
fn paralleled_clips_every_collection_and_answers_for_the_primary() {
    let mut p = Paralleled::new(Bag(vec![1, 9]), vec![Bag(vec![3, 8])]);
    let out = p.clip(5);
    assert_eq!(out, vec![1]);
    assert_eq!(p.parallels(), &vec![Bag(vec![3])]);
}

#[test]
fn paralleled_without_parallels_acts_on_the_primary_alone() {
    let mut p: Paralleled<Bag> = Paralleled::new(Bag(vec![]), vec![]);
    let (primary, parallels) = p.include_polygon(2);
    assert_eq!(primary, 1);
    assert!(parallels.is_empty());
}

#[test]
fn negated_default_and_new_keep_their_parts() {
    let n: Negated<Bag, Bag> = Negated::default();
    assert_eq!(n.minuend(), &Bag(vec![]));
    assert_eq!(n.subtrahend(), &Bag(vec![]));
    let n = Negated::new(Bag(vec![1]), Bag(vec![2]));
    assert_eq!(n.minuend(), &Bag(vec![1]));
    assert_eq!(n.subtrahend(), &Bag(vec![2]));
}
