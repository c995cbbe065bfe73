use vstd::prelude::*;

verus! {

/// Which rendering backend draws a frame.
#[derive(Debug, Clone, Copy, PartialEq, Eq, Structural)]
pub enum RenderBackend {
    /// Software rendering on the CPU.
    Cpu,
    /// Hardware rendering on the GPU.
    Gpu,
}

/// The policy for choosing the backend of each frame.
#[derive(Debug, Clone, Copy, PartialEq, Eq, Structural)]
pub enum BackendPreference {
    /// The GPU when a GPU drawer is present, the CPU otherwise.
    Auto,
    /// The GPU only: without a GPU drawer no frame is rendered (see
    /// [`frame_backend_for`]); [`DrawerManager::is_using_gpu`] then answers `false`.
    ForceGpu,
    /// Always the CPU, even when a GPU drawer is present.
    ForceCpu,
}

/// Whether a frame is drawn on the GPU under `preference`, given whether a GPU drawer is present.
pub open spec fn selects_gpu(preference: BackendPreference, has_gpu: bool) -> bool {
    match preference {
        BackendPreference::ForceGpu => has_gpu,
        BackendPreference::ForceCpu => false,
        BackendPreference::Auto => has_gpu,
    }
}

/// The backend that draws a frame under `preference`.
pub open spec fn selected_backend(preference: BackendPreference, has_gpu: bool) -> RenderBackend {
    if selects_gpu(preference, has_gpu) {
        RenderBackend::Gpu
    } else {
        RenderBackend::Cpu
    }
}

/// The backend that renders a frame under `preference`, or `None` when the
/// frame is not rendered at all: `ForceGpu` without a GPU drawer.
pub open spec fn frame_backend_for(preference: BackendPreference, has_gpu: bool) -> Option<RenderBackend> {
    if preference == BackendPreference::ForceGpu && !has_gpu {
        None
    } else {
        Some(selected_backend(preference, has_gpu))
    }
}

/// Chooses, frame by frame, between an optional GPU drawer `G` and the CPU drawer.
pub struct DrawerManager<G> {
    gpu_drawer: Option<G>,
    preference: BackendPreference,
}

impl<G> DrawerManager<G> {
    /// The GPU drawer, if there is one.
    pub closed spec fn gpu(&self) -> Option<G> {
        self.gpu_drawer
    }

    /// The current backend preference.
    pub closed spec fn preference_spec(&self) -> BackendPreference {
        self.preference
    }

    /// A manager over an optional GPU drawer, with the preference `Auto`.
    pub fn new(gpu_drawer: Option<G>) -> (r: Self)
        ensures
            r.gpu() == gpu_drawer,
            r.preference_spec() == BackendPreference::Auto,
    {
        DrawerManager { gpu_drawer, preference: BackendPreference::Auto }
    }

    /// Changes the backend preference.
    pub fn set_preference(&mut self, preference: BackendPreference)
        ensures
            final(self).preference_spec() == preference,
            final(self).gpu() == old(self).gpu(),
    {
        self.preference = preference;
    }

    /// The current backend preference.
    pub fn preference(&self) -> (r: BackendPreference)
        ensures
            r == self.preference_spec(),
    {
        self.preference
    }

    /// Whether the current frame is drawn on the GPU.
    pub fn is_using_gpu(&self) -> (r: bool)
        ensures
            r == selects_gpu(self.preference_spec(), self.gpu() is Some),
    {
        let has_gpu = self.gpu_drawer.is_some();
        match self.preference {
            BackendPreference::ForceGpu => has_gpu,
            BackendPreference::ForceCpu => false,
            BackendPreference::Auto => has_gpu,
        }
    }

    /// Whether the current frame is drawn on the CPU.
    pub fn is_using_cpu(&self) -> (r: bool)
        ensures
            r == !selects_gpu(self.preference_spec(), self.gpu() is Some),
    {
        !self.is_using_gpu()
    }

    /// The backend that draws the current frame.
    pub fn active_backend(&self) -> (r: RenderBackend)
        ensures
            r == selected_backend(self.preference_spec(), self.gpu() is Some),
    {
        if self.is_using_gpu() {
            RenderBackend::Gpu
        } else {
            RenderBackend::Cpu
        }
    }

    /// The backend that renders the current frame, or `None` when the frame is
    /// not rendered (`ForceGpu` without a GPU drawer).
    pub fn frame_backend(&self) -> (r: Option<RenderBackend>)
        ensures
            r == frame_backend_for(self.preference_spec(), self.gpu() is Some),
    {
        match self.preference {
            BackendPreference::ForceGpu => if self.gpu_drawer.is_some() {
                Some(RenderBackend::Gpu)
            } else {
                None
            },
            _ => Some(self.active_backend()),
        }
    }

    /// The GPU drawer, if there is one, whatever the preference.
    pub fn gpu_drawer_mut(&mut self) -> (r: Option<&mut G>)
        ensures
            r is Some <==> old(self).gpu() is Some,
            final(self).preference_spec() == old(self).preference_spec(),
            r is None ==> final(self).gpu() == old(self).gpu(),
            r is Some ==> *r->0 == old(self).gpu()->0 && final(self).gpu() == Some(*final(r->0)),
    {
        self.gpu_drawer.as_mut()
    }

    /// The GPU drawer, only when the current frame is drawn on the GPU.
    pub fn gpu_mut(&mut self) -> (r: Option<&mut G>)
        ensures
            r is Some <==> selects_gpu(old(self).preference_spec(), old(self).gpu() is Some),
            final(self).preference_spec() == old(self).preference_spec(),
            r is None ==> final(self).gpu() == old(self).gpu(),
            r is Some ==> *r->0 == old(self).gpu()->0 && final(self).gpu() == Some(*final(r->0)),
    {
        if self.is_using_gpu() {
            self.gpu_drawer.as_mut()
        } else {
            None
        }
    }
}

/// Under `ForceCpu` no frame is drawn on the GPU; under `Auto` and `ForceGpu`
/// every frame is drawn on the GPU exactly when a GPU drawer is present; a
/// frame is drawn on exactly one of the two backends; and a frame is rendered
/// at all unless `ForceGpu` finds no GPU drawer, and then on the backend chosen.
pub proof fn lemma_backend_policy(preference: BackendPreference, has_gpu: bool)
    ensures
        preference == BackendPreference::ForceCpu ==> selected_backend(preference, has_gpu) == RenderBackend::Cpu,
        preference != BackendPreference::ForceCpu ==> (selected_backend(preference, has_gpu) == RenderBackend::Gpu <==> has_gpu),
        !has_gpu ==> selected_backend(preference, has_gpu) == RenderBackend::Cpu,
        (selected_backend(preference, has_gpu) == RenderBackend::Gpu) == selects_gpu(preference, has_gpu),
        frame_backend_for(preference, has_gpu) is None <==> (preference == BackendPreference::ForceGpu && !has_gpu),
        frame_backend_for(preference, has_gpu) is Some ==> frame_backend_for(preference, has_gpu)->0 == selected_backend(preference, has_gpu),
        preference == BackendPreference::ForceGpu ==> frame_backend_for(preference, has_gpu) != Some(RenderBackend::Cpu),
{
}

} // verus!
