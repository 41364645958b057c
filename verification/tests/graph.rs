use musicos::graph::{GraphError, Topology};

#[test]
fn chains_reuse_two_buffers() {
    let mut g = Topology::new();
    let a = g.add();
    let mut prev = a;
    for _ in 0..4 {
        let gain = g.add();
        g.connect(prev, gain).unwrap();
        prev = gain;
    }
    let s = g.compile(prev).unwrap();
    assert_eq!(s.pool_size, 2, "liveness must recycle chain buffers");
    let order: Vec<usize> = s.tasks.iter().map(|t| t.node).collect();
    assert_eq!(order, vec![0, 1, 2, 3, 4]);
    assert_eq!(s.sink_buffer, s.tasks[4].output_buffer);
    for w in s.tasks.windows(2) {
        assert_eq!(w[1].input_buffers, vec![w[0].output_buffer]);
        assert_ne!(w[1].output_buffer, w[0].output_buffer);
    }
}

#[test]
fn parallel_sources_feed_a_sum() {
    let mut g = Topology::new();
    let a = g.add();
    let b = g.add();
    let sum = g.add();
    g.connect(a, sum).unwrap();
    g.connect(b, sum).unwrap();
    let s = g.compile(sum).unwrap();
    assert_eq!(s.tasks.len(), 3);
    let last = &s.tasks[2];
    assert_eq!(last.node, sum.get());
    let by_node = |n: usize| s.tasks.iter().find(|t| t.node == n).unwrap().output_buffer;
    assert_eq!(last.input_buffers, vec![by_node(a.get()), by_node(b.get())]);
    assert_ne!(by_node(a.get()), by_node(b.get()));
    assert_ne!(last.output_buffer, by_node(a.get()));
    assert_ne!(last.output_buffer, by_node(b.get()));
}

#[test]
fn cycles_are_rejected() {
    let mut g = Topology::new();
    let a = g.add();
    let b = g.add();
    g.connect(a, b).unwrap();
    g.connect(b, a).unwrap();
    assert_eq!(g.compile(a).unwrap_err(), GraphError::Cycle);
    let mut h = Topology::new();
    let c = h.add();
    h.connect(c, c).unwrap();
    assert_eq!(h.compile(c).unwrap_err(), GraphError::Cycle);
}

#[test]
fn unknown_nodes_are_rejected() {
    let mut g = Topology::new();
    let a = g.add();
    let mut other = Topology::new();
    other.add();
    let far = other.add();
    assert_eq!(g.connect(a, far), Err(GraphError::UnknownNode));
    assert_eq!(g.compile(far).unwrap_err(), GraphError::UnknownNode);
    assert_eq!(g.len(), 1);
    assert_eq!(GraphError::Cycle.message(), "graph contains a cycle");
}

#[test]
fn a_producer_read_twice_is_freed_once() {
    let mut g = Topology::new();
    let p = g.add();
    let q = g.add();
    let a = g.add();
    let s = g.add();
    let t = g.add();
    g.connect(a, s).unwrap();
    g.connect(a, s).unwrap();
    g.connect(s, t).unwrap();
    g.connect(p, t).unwrap();
    g.connect(q, t).unwrap();
    let sched = g.compile(t).unwrap();
    let constant = |n: usize| -> Option<f32> {
        if n == p.get() {
            Some(2.0)
        } else if n == q.get() {
            Some(3.0)
        } else if n == a.get() {
            Some(1.0)
        } else {
            None
        }
    };
    let mut buffers = vec![0.0f32; sched.pool_size];
    for task in &sched.tasks {
        let value = match constant(task.node) {
            Some(v) => v,
            None => task.input_buffers.iter().map(|&b| buffers[b]).sum(),
        };
        buffers[task.output_buffer] = value;
    }
    assert_eq!(buffers[sched.sink_buffer], 7.0);
}
