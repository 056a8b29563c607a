//! A scene: surfaces tried one after another, of which the nearest strike wins.

use crate::hittable::{HitRecord, Hittable};
use crate::ray::Ray;
use vstd::prelude::*;

verus! {

/// An ordered collection of surfaces that is struck where its nearest member is.
pub struct HittableList<T> {
    pub objects: Vec<T>,
}

impl<T: Hittable> HittableList<T> {
    /// Where the window ends once `best` has been found: at the strike, or
    /// where it ended before if there is none.
    pub open spec fn limit_spec(best: Option<HitRecord<'_, T::Mat>>, t_max: i64) -> i64 {
        match best {
            Some(h) => h.t,
            None => t_max,
        }
    }

    /// The strike that is kept after the first `n` members have been tried in
    /// turn, each in the window that ends at the strike kept so far.
    pub open spec fn closest_spec(&self, n: int, ray: Ray, t_min: i64, t_max: i64) -> Option<
        HitRecord<'_, T::Mat>,
    >
        decreases n,
    {
        if n <= 0 {
            None
        } else {
            let best = self.closest_spec(n - 1, ray, t_min, t_max);
            match self.objects@[n - 1].hit_spec(ray, t_min, Self::limit_spec(best, t_max)) {
                Some(h) => Some(h),
                None => best,
            }
        }
    }

    /// Every member is well formed.
    pub open spec fn members_wf(&self) -> bool {
        forall|i: int| 0 <= i < self.objects@.len() ==> (#[trigger] self.objects@[i]).wf()
    }

    /// An empty scene.
    pub fn new() -> (list: Self)
        ensures
            list.objects@ == Seq::<T>::empty(),
    {
        HittableList { objects: Vec::new() }
    }

    /// Adds a surface behind those that the scene holds.
    pub fn push(&mut self, object: T)
        ensures
            final(self).objects@ == old(self).objects@.push(object),
    {
        self.objects.push(object);
    }

    /// What is kept after `n` members lies in the window and is well formed,
    /// and no member among them strikes in the window that ends where the
    /// kept strike lies.
    pub proof fn lemma_closest(&self, n: int, ray: Ray, t_min: i64, t_max: i64)
        requires
            self.members_wf(),
            ray.wf(),
            0 <= n <= self.objects@.len(),
        ensures
            self.closest_spec(n, ray, t_min, t_max) matches Some(h) ==> t_min < h.t < t_max && h.wf(
                ray,
            ),
            forall|i: int|
                0 <= i < n ==> (#[trigger] self.objects@[i]).hit_spec(
                    ray,
                    t_min,
                    Self::limit_spec(self.closest_spec(n, ray, t_min, t_max), t_max),
                ) is None,
        decreases n,
    {
        if n > 0 {
            self.lemma_closest(n - 1, ray, t_min, t_max);
            let before = self.closest_spec(n - 1, ray, t_min, t_max);
            let limit = Self::limit_spec(before, t_max);
            let last = self.objects@[n - 1];
            last.lemma_hit_wf(ray, t_min, limit);
            let kept = self.closest_spec(n, ray, t_min, t_max);
            let sooner = Self::limit_spec(kept, t_max);
            assert forall|i: int| 0 <= i < n implies (#[trigger] self.objects@[i]).hit_spec(
                ray,
                t_min,
                sooner,
            ) is None by {
                self.objects@[i].lemma_hit_nearest(ray, t_min, limit, sooner);
            }
        }
    }

    /// Where the window is cut at or before the strike that is kept, or the
    /// whole window holds none, nothing is kept.
    pub proof fn lemma_closest_nearest(&self, n: int, ray: Ray, t_min: i64, t_max: i64, sooner: i64)
        requires
            self.members_wf(),
            ray.wf(),
            0 <= n <= self.objects@.len(),
            sooner <= t_max,
            self.closest_spec(n, ray, t_min, t_max) matches Some(h) ==> sooner <= h.t,
        ensures
            self.closest_spec(n, ray, t_min, sooner) is None,
        decreases n,
    {
        if n > 0 {
            self.lemma_closest(n, ray, t_min, t_max);
            let limit = Self::limit_spec(self.closest_spec(n, ray, t_min, t_max), t_max);
            self.lemma_none_kept(n, ray, t_min, limit, sooner);
        }
    }

    /// Where no member strikes in a window, nothing is kept in a window that
    /// ends no later.
    pub proof fn lemma_none_kept(&self, n: int, ray: Ray, t_min: i64, t_max: i64, sooner: i64)
        requires
            self.members_wf(),
            ray.wf(),
            0 <= n <= self.objects@.len(),
            sooner <= t_max,
            forall|i: int|
                0 <= i < n ==> (#[trigger] self.objects@[i]).hit_spec(ray, t_min, t_max) is None,
        ensures
            self.closest_spec(n, ray, t_min, sooner) is None,
        decreases n,
    {
        if n > 0 {
            self.lemma_none_kept(n - 1, ray, t_min, t_max, sooner);
            self.objects@[n - 1].lemma_hit_nearest(ray, t_min, t_max, sooner);
        }
    }

    /// The nearest surface wins: no member of the scene strikes in the window
    /// that ends at the scene's strike, and where the scene is not struck, no
    /// member is.
    pub proof fn lemma_nearest_wins(&self, ray: Ray, t_min: i64, t_max: i64)
        requires
            self.members_wf(),
            ray.wf(),
        ensures
            forall|i: int|
                0 <= i < self.objects@.len() ==> (#[trigger] self.objects@[i]).hit_spec(
                    ray,
                    t_min,
                    Self::limit_spec(
                        self.closest_spec(self.objects@.len() as int, ray, t_min, t_max),
                        t_max,
                    ),
                ) is None,
    {
        self.lemma_closest(self.objects@.len() as int, ray, t_min, t_max);
    }
}

impl<T: Hittable> Hittable for HittableList<T> {
    type Mat = T::Mat;

    open spec fn wf(&self) -> bool {
        self.members_wf()
    }

    open spec fn hit_spec(&self, ray: Ray, t_min: i64, t_max: i64) -> Option<
        HitRecord<'_, Self::Mat>,
    > {
        self.closest_spec(self.objects@.len() as int, ray, t_min, t_max)
    }

    proof fn lemma_hit_wf(&self, ray: Ray, t_min: i64, t_max: i64) {
        self.lemma_closest(self.objects@.len() as int, ray, t_min, t_max);
    }

    proof fn lemma_hit_nearest(&self, ray: Ray, t_min: i64, t_max: i64, sooner: i64) {
        self.lemma_closest_nearest(self.objects@.len() as int, ray, t_min, t_max, sooner);
    }

    /// Tries every member in turn and keeps the nearest strike, ending the
    /// window at the best strike so far as it goes.
    fn hit(&self, ray: &Ray, t_min: i64, t_max: i64) -> (rec: Option<HitRecord<'_, Self::Mat>>) {
        let mut best: Option<HitRecord<'_, Self::Mat>> = None;
        let mut limit: i64 = t_max;
        let mut i: usize = 0;
        while i < self.objects.len()
            invariant
                0 <= i <= self.objects@.len(),
                self.members_wf(),
                ray.wf(),
                best == self.closest_spec(i as int, *ray, t_min, t_max),
                limit == Self::limit_spec(best, t_max),
            decreases self.objects@.len() - i,
        {
            if let Some(h) = self.objects[i].hit(ray, t_min, limit) {
                limit = h.t;
                best = Some(h);
            }
            i = i + 1;
        }
        proof {
            self.lemma_closest(self.objects@.len() as int, *ray, t_min, t_max);
        }
        best
    }
}

} // verus!
