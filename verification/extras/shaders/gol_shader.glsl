#version 450

// One generation of the Game of Life on an h x w torus: reads the board
// from binding 0 and writes the next one to binding 1. Row i of the board
// runs along the x dimension of the dispatch, column j along y. A cell with
// a value above zero is alive; the neighbours' values are added up in the
// same order as the CPU rule.
layout(local_size_x = 16, local_size_y = 16, local_size_z = 1) in;

layout(push_constant) uniform Params {
    uint h;
    uint w;
} params;

layout(set = 0, binding = 0) buffer Src {
    int cells[];
} src;

layout(set = 0, binding = 1) buffer Dst {
    int cells[];
} dst;

const ivec2 DIFS[8] = ivec2[8](
    ivec2(-1, 1), ivec2(0, 1), ivec2(1, 1), ivec2(-1, 0),
    ivec2(1, 0), ivec2(-1, -1), ivec2(0, -1), ivec2(1, -1)
);

void main() {
    uint i = gl_GlobalInvocationID.x;
    uint j = gl_GlobalInvocationID.y;
    if (i >= params.h || j >= params.w) {
        return;
    }
    int h = int(params.h);
    int w = int(params.w);
    int neigs = 0;
    for (int k = 0; k < 8; k++) {
        int dj = DIFS[k].x;
        int di = DIFS[k].y;
        int ii = (int(i) + di + h) % h;
        int jj = (int(j) + dj + w) % w;
        neigs += src.cells[ii * w + jj];
    }
    bool is_alive = src.cells[i * params.w + j] > 0;
    int next;
    if (is_alive) {
        next = (neigs >= 2 && neigs <= 3) ? 1 : 0;
    } else {
        next = (neigs == 3) ? 1 : 0;
    }
    dst.cells[i * params.w + j] = next;
}
