# Multiboot entry: from 32-bit protected mode to long mode and `kmain`, and
# the 256 interrupt stubs that hand the saved registers to `interrupt`.

.section .multiboot, "a"
.align 4
multiboot_header:
    .long 0x1BADB002
    .long 0x00000003
    .long 0xE4524FFB

.section .bss
.balign 4096
page_table_pml4:
    .skip 4096
page_table_pdp:
    .skip 4096
page_table_pd:
    .skip 4096
.balign 16
stack_bottom:
    .skip 65536
.globl stack_top
stack_top:
double_fault_stack:
    .skip 16384
.globl double_fault_stack_top
double_fault_stack_top:

.section .text
.code32
.globl _start
_start:
    cli
    movl %eax, %ebp
    movl $page_table_pdp, %eax
    orl $3, %eax
    movl %eax, page_table_pml4
    movl $page_table_pd, %eax
    orl $3, %eax
    movl %eax, page_table_pdp
    xorl %ecx, %ecx
map_next:
    movl %ecx, %eax
    shll $21, %eax
    orl $0x83, %eax
    movl %eax, page_table_pd(,%ecx,8)
    incl %ecx
    cmpl $8, %ecx
    jne map_next
    movl %cr4, %eax
    orl $0x620, %eax
    movl %eax, %cr4
    movl $0xC0000080, %ecx
    rdmsr
    orl $0x100, %eax
    wrmsr
    movl $page_table_pml4, %eax
    movl %eax, %cr3
    movl %cr0, %eax
    orl $0x80000003, %eax
    movl %eax, %cr0
    lgdt boot_gdt_pointer
    ljmp $0x08, $long_mode

.code64
long_mode:
    movw $0x10, %ax
    movw %ax, %ds
    movw %ax, %es
    movw %ax, %ss
    movq $stack_top, %rsp
    movl %ebp, %edi
    movl %ebx, %esi
    call kmain
stopped:
    hlt
    jmp stopped

# The common end of the stubs: the order of the pushes is that of the fields
# of `SavedRegisters`, from the last to the first.
isr_common:
    pushq %rbx
    pushq %rax
    pushq %rcx
    pushq %rdx
    pushq %rsi
    pushq %rdi
    pushq %rbp
    pushq %r8
    pushq %r9
    pushq %r10
    pushq %r11
    pushq %r12
    pushq %r13
    pushq %r14
    pushq %r15
    movq %rsp, %rdi
    call interrupt
    popq %r15
    popq %r14
    popq %r13
    popq %r12
    popq %r11
    popq %r10
    popq %r9
    popq %r8
    popq %rbp
    popq %rdi
    popq %rsi
    popq %rdx
    popq %rcx
    popq %rax
    popq %rbx
    addq $16, %rsp
    iretq

.altmacro
.macro stub n
isr_\n:
    .if (\n == 8) || ((\n >= 10) && (\n <= 14)) || (\n == 17)
    .else
    pushq $0
    .endif
    pushq $\n
    jmp isr_common
.endm
.macro entry n
    .quad isr_\n
.endm

.set i, 0
.rept 256
    stub %i
    .set i, i + 1
.endr

.section .rodata
.globl isr_table
isr_table:
.set i, 0
.rept 256
    entry %i
    .set i, i + 1
.endr

boot_gdt_pointer:
    .word 23
    .long boot_gdt
boot_gdt:
    .quad 0
    .quad 0x00209A0000000000
    .quad 0x0000920000000000
